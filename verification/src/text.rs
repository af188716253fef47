//! Text as a sequence of characters: white space, words, lines and decimal
//! numbers.

use vstd::prelude::*;

verus! {

/// The characters that Unicode gives the `White_Space` property.
pub open spec fn white_space(c: char) -> bool {
    ||| '\u{9}' <= c <= '\u{d}'
    ||| c == ' '
    ||| c == '\u{85}'
    ||| c == '\u{a0}'
    ||| c == '\u{1680}'
    ||| '\u{2000}' <= c <= '\u{200a}'
    ||| c == '\u{2028}'
    ||| c == '\u{2029}'
    ||| c == '\u{202f}'
    ||| c == '\u{205f}'
    ||| c == '\u{3000}'
}

/// Whether `c` is white space.
pub fn is_white_space(c: char) -> (r: bool)
    ensures
        r == white_space(c),
{
    ('\u{9}' <= c && c <= '\u{d}') || c == ' ' || c == '\u{85}' || c == '\u{a0}' || c == '\u{1680}'
        || ('\u{2000}' <= c && c <= '\u{200a}') || c == '\u{2028}' || c == '\u{2029}' || c
        == '\u{202f}' || c == '\u{205f}' || c == '\u{3000}'
}

/// `s` without the white space at its two ends.
pub open spec fn trimmed(s: Seq<char>) -> Seq<char>
    decreases s.len(),
{
    if s.len() == 0 {
        s
    } else if white_space(s[0]) {
        trimmed(s.drop_first())
    } else if white_space(s.last()) {
        trimmed(s.drop_last())
    } else {
        s
    }
}

/// The characters of `s`.
pub(crate) fn chars_of(s: &str) -> (r: Vec<char>)
    ensures
        r@ == s@,
{
    let mut r: Vec<char> = Vec::new();
    for c in it: s.chars()
        invariant
            it.seq() == s@,
            r@ == s@.take(it.index() as int),
    {
        r.push(c);
    }
    r
}

/// `s` without the white space at its two ends.
pub fn trim(s: &str) -> (r: &str)
    ensures
        r@ == trimmed(s@),
{
    let chars = chars_of(s);
    let mut from: usize = 0;
    let mut to: usize = chars.len();
    assert(s@.subrange(0, to as int) =~= s@);
    while from < to && is_white_space(chars[from])
        invariant
            chars@ == s@,
            from <= to == s@.len(),
            trimmed(s@) == trimmed(s@.subrange(from as int, to as int)),
        decreases to - from,
    {
        assert(s@.subrange(from as int, to as int).drop_first() =~= s@.subrange(
            from + 1,
            to as int,
        ));
        from = from + 1;
    }
    while from < to && is_white_space(chars[to - 1])
        invariant
            chars@ == s@,
            from <= to <= s@.len(),
            from < to ==> !white_space(s@[from as int]),
            trimmed(s@) == trimmed(s@.subrange(from as int, to as int)),
        decreases to - from,
    {
        assert(s@.subrange(from as int, to as int).drop_last() =~= s@.subrange(
            from as int,
            to - 1,
        ));
        to = to - 1;
    }
    s.substring_char(from, to)
}

/// How many characters `s` has before its first white space.
pub open spec fn word_len(s: Seq<char>) -> nat
    decreases s.len(),
{
    if s.len() == 0 || white_space(s[0]) {
        0
    } else {
        1 + word_len(s.drop_first())
    }
}

/// The words of `s`: its longest runs of characters that are not white space.
pub open spec fn words(s: Seq<char>) -> Seq<Seq<char>>
    decreases s.len(),
{
    if s.len() == 0 {
        Seq::empty()
    } else if white_space(s[0]) {
        words(s.drop_first())
    } else {
        let n = word_len(s) as int;
        if 0 < n <= s.len() {
            seq![s.take(n)] + words(s.skip(n))
        } else {
            Seq::empty()
        }
    }
}

/// What the elements of a list of texts say.
pub open spec fn texts(list: Seq<&str>) -> Seq<Seq<char>> {
    list.map_values(|t: &str| t@)
}

proof fn lemma_word_len(s: Seq<char>)
    ensures
        word_len(s) <= s.len(),
        forall|i: int| 0 <= i < word_len(s) ==> !white_space(s[i]),
    decreases s.len(),
{
    if s.len() != 0 && !white_space(s[0]) {
        lemma_word_len(s.drop_first());
        assert forall|i: int| 0 <= i < word_len(s) implies !white_space(s[i]) by {
            if i > 0 {
                assert(s[i] == s.drop_first()[i - 1]);
            }
        }
    }
}

/// The words of `s`, in order.
pub fn words_of(s: &str) -> (r: Vec<&str>)
    ensures
        texts(r@) == words(s@),
{
    let chars = chars_of(s);
    let mut r: Vec<&str> = Vec::new();
    let mut from: usize = 0;
    assert(s@.skip(0) =~= s@);
    while from < chars.len()
        invariant
            chars@ == s@,
            from <= s@.len(),
            texts(r@) + words(s@.skip(from as int)) == words(s@),
        decreases s@.len() - from,
    {
        let ghost rest = s@.skip(from as int);
        if is_white_space(chars[from]) {
            assert(rest.drop_first() =~= s@.skip(from + 1));
            from = from + 1;
        } else {
            let mut to: usize = from;
            assert(s@.skip(to as int) =~= rest);
            while to < chars.len() && !is_white_space(chars[to])
                invariant
                    chars@ == s@,
                    from <= to <= s@.len(),
                    word_len(s@.skip(from as int)) == to - from + word_len(s@.skip(to as int)),
                decreases s@.len() - to,
            {
                assert(s@.skip(to as int).drop_first() =~= s@.skip(to + 1));
                to = to + 1;
            }
            proof {
                lemma_word_len(rest);
                assert(rest.take(to - from) =~= s@.subrange(from as int, to as int));
                assert(rest.skip(to - from) =~= s@.skip(to as int));
            }
            let ghost before = r@;
            r.push(s.substring_char(from, to));
            assert(texts(r@) =~= texts(before) + seq![s@.subrange(from as int, to as int)]);
            from = to;
        }
    }
    assert(words(s@.skip(from as int)) =~= Seq::empty());
    r
}

/// How many characters `s` has before its first line feed.
pub open spec fn line_len(s: Seq<char>) -> nat
    decreases s.len(),
{
    if s.len() == 0 || s[0] == '\n' {
        0
    } else {
        1 + line_len(s.drop_first())
    }
}

/// `s` without the carriage returns at its end.
pub open spec fn without_returns(s: Seq<char>) -> Seq<char>
    decreases s.len(),
{
    if s.len() != 0 && s.last() == '\r' {
        without_returns(s.drop_last())
    } else {
        s
    }
}

/// What stands behind the first line feed of `s`.
pub open spec fn after_line(s: Seq<char>) -> Seq<char> {
    if line_len(s) < s.len() {
        s.skip(line_len(s) as int + 1)
    } else {
        Seq::empty()
    }
}

/// The lines of `s`, without what ends them. A line with nothing on it is left
/// out; one that no line feed ends counts like the others.
pub open spec fn lines(s: Seq<char>) -> Seq<Seq<char>>
    decreases s.len(),
{
    if s.len() == 0 {
        Seq::empty()
    } else {
        let line = without_returns(s.take(line_len(s) as int));
        let rest = lines(after_line(s));
        if line.len() == 0 {
            rest
        } else {
            seq![line] + rest
        }
    }
}

proof fn lemma_line_len(s: Seq<char>)
    ensures
        line_len(s) <= s.len(),
        forall|i: int| 0 <= i < line_len(s) ==> s[i] != '\n',
        line_len(s) < s.len() ==> s[line_len(s) as int] == '\n',
    decreases s.len(),
{
    if s.len() != 0 && s[0] != '\n' {
        lemma_line_len(s.drop_first());
        assert forall|i: int| 0 <= i < line_len(s) implies s[i] != '\n' by {
            if i > 0 {
                assert(s[i] == s.drop_first()[i - 1]);
            }
        }
    }
}

/// The lines of `s`, in order, without what ends them and without those that
/// have nothing on them.
pub fn lines_of(s: &str) -> (r: Vec<&str>)
    ensures
        texts(r@) == lines(s@),
{
    let chars = chars_of(s);
    let mut r: Vec<&str> = Vec::new();
    let mut from: usize = 0;
    assert(s@.skip(0) =~= s@);
    while from < chars.len()
        invariant
            chars@ == s@,
            from <= s@.len(),
            texts(r@) + lines(s@.skip(from as int)) == lines(s@),
        decreases s@.len() - from,
    {
        let ghost rest = s@.skip(from as int);
        let mut to: usize = from;
        while to < chars.len() && chars[to] != '\n'
            invariant
                chars@ == s@,
                from <= to <= s@.len(),
                line_len(s@.skip(from as int)) == to - from + line_len(s@.skip(to as int)),
            decreases s@.len() - to,
        {
            assert(s@.skip(to as int).drop_first() =~= s@.skip(to + 1));
            to = to + 1;
        }
        assert(rest.take(to - from) =~= s@.subrange(from as int, to as int));
        let mut cut: usize = to;
        while from < cut && chars[cut - 1] == '\r'
            invariant
                chars@ == s@,
                from <= cut <= to <= s@.len(),
                without_returns(s@.subrange(from as int, to as int)) == without_returns(
                    s@.subrange(from as int, cut as int),
                ),
            decreases cut,
        {
            assert(s@.subrange(from as int, cut as int).drop_last() =~= s@.subrange(
                from as int,
                cut - 1,
            ));
            cut = cut - 1;
        }
        let ghost line = s@.subrange(from as int, cut as int);
        assert(without_returns(rest.take(line_len(rest) as int)) == line);
        let ghost before = r@;
        if from < cut {
            r.push(s.substring_char(from, cut));
            assert(texts(r@) =~= texts(before) + seq![line]);
        }
        if to < chars.len() {
            assert(after_line(rest) =~= s@.skip(to + 1));
            from = to + 1;
        } else {
            assert(after_line(rest) =~= s@.skip(to as int));
            from = to;
        }
        assert(texts(r@) + lines(s@.skip(from as int)) =~= texts(before) + lines(rest));
    }
    assert(lines(s@.skip(from as int)) =~= Seq::empty());
    r
}

/// Whether `c` is one of the characters that end a line.
pub open spec fn ends_line(c: char) -> bool {
    c == '\n' || c == '\r'
}

/// What a text says apart from how it is broken into lines.
pub open spec fn unbroken(s: Seq<char>) -> Seq<char> {
    s.filter(|c: char| !ends_line(c))
}

/// The decimal digit `d`.
pub open spec fn digit(d: int) -> char {
    "0123456789"@[d]
}

/// `n` as it is written in base ten.
pub open spec fn decimal(n: nat) -> Seq<char>
    decreases n,
{
    if n < 10 {
        seq![digit(n as int)]
    } else {
        decimal(n / 10).push(digit((n % 10) as int))
    }
}

/// `n` as it is written in base ten.
pub fn decimal_of(n: usize) -> (r: String)
    ensures
        r@ == decimal(n as nat),
    decreases n,
{
    let mut r = if n < 10 {
        String::new()
    } else {
        decimal_of(n / 10)
    };
    proof {
        reveal_strlit("0123456789");
    }
    let d: usize = n % 10;
    r.append("0123456789".substring_char(d, d + 1));
    assert(r@ =~= decimal(n as nat));
    r
}

proof fn lemma_digits(a: int, b: int)
    requires
        0 <= a < 10,
        0 <= b < 10,
        digit(a) == digit(b),
    ensures
        a == b,
{
    reveal_strlit("0123456789");
}

proof fn lemma_decimal_len(n: nat)
    ensures
        decimal(n).len() >= 1,
        n >= 10 ==> decimal(n).len() >= 2,
    decreases n,
{
    if n >= 10 {
        lemma_decimal_len(n / 10);
    }
}

/// Different numbers are written differently.
pub proof fn decimal_tells_numbers_apart(n: nat, m: nat)
    requires
        decimal(n) == decimal(m),
    ensures
        n == m,
    decreases n,
{
    lemma_decimal_len(n);
    lemma_decimal_len(m);
    if n < 10 {
        assert(decimal(n)[0] == digit(n as int));
        assert(decimal(m)[0] == digit(m as int));
        lemma_digits(n as int, m as int);
    } else {
        let a = decimal(n / 10);
        let b = decimal(m / 10);
        assert(decimal(n).last() == digit((n % 10) as int));
        assert(decimal(m).last() == digit((m % 10) as int));
        lemma_digits((n % 10) as int, (m % 10) as int);
        assert(decimal(n).drop_last() =~= a);
        assert(decimal(m).drop_last() =~= b);
        decimal_tells_numbers_apart(n / 10, m / 10);
    }
}

proof fn lemma_word_len_before(s: Seq<char>, space: char, rest: Seq<char>)
    requires
        white_space(space),
    ensures
        word_len(s + seq![space] + rest) == word_len(s),
    decreases s.len(),
{
    let all = s + seq![space] + rest;
    if s.len() == 0 {
        assert(all[0] == space);
    } else {
        assert(all[0] == s[0]);
        if !white_space(s[0]) {
            lemma_word_len_before(s.drop_first(), space, rest);
            assert(all.drop_first() =~= s.drop_first() + seq![space] + rest);
        }
    }
}

/// White space ends a word whatever follows: the words of two texts with white
/// space between them are those of the one and then those of the other.
pub proof fn white_space_parts_words(s: Seq<char>, space: char, rest: Seq<char>)
    requires
        white_space(space),
    ensures
        words(s + seq![space] + rest) == words(s) + words(rest),
    decreases s.len(),
{
    let all = s + seq![space] + rest;
    if s.len() == 0 {
        assert(all[0] == space);
        assert(all.drop_first() =~= rest);
        assert(words(s) + words(rest) =~= words(rest));
    } else if white_space(s[0]) {
        assert(all[0] == s[0]);
        white_space_parts_words(s.drop_first(), space, rest);
        assert(all.drop_first() =~= s.drop_first() + seq![space] + rest);
    } else {
        assert(all[0] == s[0]);
        let n = word_len(s) as int;
        lemma_word_len(s);
        lemma_word_len_before(s, space, rest);
        white_space_parts_words(s.skip(n), space, rest);
        assert(all.take(n) =~= s.take(n));
        assert(all.skip(n) =~= s.skip(n) + seq![space] + rest);
        assert(words(all) =~= words(s) + words(rest));
    }
}

proof fn lemma_unbroken_returns(s: Seq<char>)
    ensures
        unbroken(without_returns(s)) == unbroken(s),
    decreases s.len(),
{
    if s.len() != 0 && s.last() == '\r' {
        lemma_unbroken_returns(s.drop_last());
        reveal(Seq::filter);
    }
}

/// Breaking a text into lines loses nothing of it but what ends a line, and
/// keeps the rest in order.
pub proof fn lines_keep_the_text(s: Seq<char>)
    ensures
        unbroken(lines(s).flatten()) == unbroken(s),
    decreases s.len(),
{
    if s.len() == 0 {
        assert(lines(s).flatten() =~= s);
    } else {
        lemma_line_len(s);
        let n = line_len(s) as int;
        let rest = after_line(s);
        let line = without_returns(s.take(n));
        let keeps = |c: char| !ends_line(c);
        lines_keep_the_text(rest);
        lemma_unbroken_returns(s.take(n));
        let feed = s.subrange(
            n,
            if n < s.len() {
                n + 1
            } else {
                n
            },
        );
        assert(s =~= s.take(n) + (feed + rest));
        Seq::filter_distributes_over_add(s.take(n), feed + rest, keeps);
        Seq::filter_distributes_over_add(feed, rest, keeps);
        assert(feed.filter(keeps) =~= Seq::empty()) by {
            reveal_with_fuel(Seq::filter, 2);
            if n < s.len() {
                assert(feed[0] == '\n');
            }
        }
        assert(unbroken(s) =~= unbroken(line) + unbroken(lines(rest).flatten()));
        Seq::filter_distributes_over_add(line, lines(rest).flatten(), keeps);
        if line.len() == 0 {
            assert(line + lines(rest).flatten() =~= lines(rest).flatten());
        } else {
            assert(lines(s).drop_first() =~= lines(rest));
            assert(lines(s).flatten() =~= line + lines(rest).flatten());
        }
    }
}

proof fn lemma_without_returns(s: Seq<char>)
    ensures
        without_returns(s).len() <= s.len(),
        without_returns(s) == s.take(without_returns(s).len() as int),
        without_returns(s).len() > 0 ==> without_returns(s).last() != '\r',
    decreases s.len(),
{
    if s.len() != 0 && s.last() == '\r' {
        lemma_without_returns(s.drop_last());
    } else {
        assert(s.take(s.len() as int) =~= s);
    }
}

/// A line has something on it, and nothing that ends a line: no line feed
/// anywhere, and no carriage return at its end.
pub proof fn lines_are_single(s: Seq<char>)
    ensures
        forall|i: int|
            0 <= i < lines(s).len() ==> (#[trigger] lines(s)[i]).len() > 0
                && !lines(s)[i].contains('\n') && lines(s)[i].last() != '\r',
    decreases s.len(),
{
    if s.len() != 0 {
        lemma_line_len(s);
        let n = line_len(s) as int;
        let line = without_returns(s.take(n));
        lemma_without_returns(s.take(n));
        lines_are_single(after_line(s));
        assert forall|i: int| 0 <= i < lines(s).len() implies (#[trigger] lines(s)[i]).len() > 0
            && !lines(s)[i].contains('\n') && lines(s)[i].last() != '\r' by {
            if line.len() != 0 {
                if i == 0 {
                    assert(lines(s)[0] == line);
                    assert forall|k: int| 0 <= k < line.len() implies line[k] != '\n' by {
                        assert(line[k] == s[k]);
                    }
                } else {
                    assert(lines(s)[i] == lines(after_line(s))[i - 1]);
                }
            } else {
                assert(lines(s)[i] == lines(after_line(s))[i]);
            }
        }
    }
}

proof fn lemma_line_len_before(a: Seq<char>, b: Seq<char>)
    requires
        line_len(a) < a.len(),
    ensures
        line_len(a + b) == line_len(a),
    decreases a.len(),
{
    assert((a + b)[0] == a[0]);
    if a[0] != '\n' {
        lemma_line_len_before(a.drop_first(), b);
        assert((a + b).drop_first() =~= a.drop_first() + b);
    }
}

/// A line feed ends a line whatever follows: the lines of two texts, the first of
/// which ends in one, are those of the one and then those of the other.
pub proof fn line_feed_parts_lines(a: Seq<char>, b: Seq<char>)
    requires
        a.len() > 0 ==> a.last() == '\n',
    ensures
        lines(a + b) == lines(a) + lines(b),
    decreases a.len(),
{
    if a.len() == 0 {
        assert(a + b =~= b);
        assert(lines(a) + lines(b) =~= lines(b));
    } else {
        lemma_line_len(a);
        let n = line_len(a) as int;
        assert(n < a.len());
        lemma_line_len_before(a, b);
        let rest = after_line(a);
        assert(rest.len() > 0 ==> rest.last() == a.last());
        line_feed_parts_lines(rest, b);
        assert(after_line(a + b) =~= rest + b);
        assert((a + b).take(n) =~= a.take(n));
        assert(lines(a + b) =~= lines(a) + lines(b));
    }
}

/// The white space is that of Unicode: these code points have the property, and no
/// others.
pub proof fn white_space_is_that_of_unicode(c: char)
    ensures
        white_space(c) == seq![
            0x0009u32, 0x000a, 0x000b, 0x000c, 0x000d, 0x0020, 0x0085, 0x00a0, 0x1680, 0x2000,
            0x2001, 0x2002, 0x2003, 0x2004, 0x2005, 0x2006, 0x2007, 0x2008, 0x2009, 0x200a, 0x2028,
            0x2029, 0x202f, 0x205f, 0x3000,
        ].contains(c as u32),
{
    let all = seq![
        0x0009u32, 0x000a, 0x000b, 0x000c, 0x000d, 0x0020, 0x0085, 0x00a0, 0x1680, 0x2000, 0x2001,
        0x2002, 0x2003, 0x2004, 0x2005, 0x2006, 0x2007, 0x2008, 0x2009, 0x200a, 0x2028, 0x2029,
        0x202f, 0x205f, 0x3000,
    ];
    assert(all.len() == 25);
    assert(all[0] == 0x9 && all[1] == 0xa && all[2] == 0xb && all[3] == 0xc && all[4] == 0xd);
    assert(all[5] == 0x20 && all[6] == 0x85 && all[7] == 0xa0 && all[8] == 0x1680);
    assert(all[9] == 0x2000 && all[10] == 0x2001 && all[11] == 0x2002 && all[12] == 0x2003);
    assert(all[13] == 0x2004 && all[14] == 0x2005 && all[15] == 0x2006 && all[16] == 0x2007);
    assert(all[17] == 0x2008 && all[18] == 0x2009 && all[19] == 0x200a && all[20] == 0x2028);
    assert(all[21] == 0x2029 && all[22] == 0x202f && all[23] == 0x205f && all[24] == 0x3000);
}

/// Whether there is nothing but white space in `s`.
pub open spec fn blank(s: Seq<char>) -> bool {
    forall|i: int| 0 <= i < s.len() ==> white_space(#[trigger] s[i])
}

/// Trimming takes the white space off both ends of a text, all of it, and nothing
/// else: what stands between is what is left, with whatever white space it has
/// inside.
pub proof fn trimming_takes_the_white_space_at_the_ends(
    before: Seq<char>,
    s: Seq<char>,
    after: Seq<char>,
)
    requires
        blank(before),
        blank(after),
        s.len() > 0 ==> !white_space(s[0]) && !white_space(s.last()),
    ensures
        trimmed(before + s + after) == s,
    decreases before.len() + after.len(),
{
    let all = before + s + after;
    if before.len() > 0 {
        assert(all[0] == before[0]);
        assert forall|i: int| 0 <= i < before.drop_first().len() implies white_space(
            #[trigger] before.drop_first()[i],
        ) by {
            assert(before.drop_first()[i] == before[i + 1]);
        }
        trimming_takes_the_white_space_at_the_ends(before.drop_first(), s, after);
        assert(all.drop_first() =~= before.drop_first() + s + after);
    } else if s.len() == 0 && after.len() > 0 {
        assert(all[0] == after[0]);
        assert forall|i: int| 0 <= i < after.drop_first().len() implies white_space(
            #[trigger] after.drop_first()[i],
        ) by {
            assert(after.drop_first()[i] == after[i + 1]);
        }
        trimming_takes_the_white_space_at_the_ends(before, s, after.drop_first());
        assert(all.drop_first() =~= before + s + after.drop_first());
    } else if after.len() > 0 {
        assert(all[0] == s[0]);
        assert(all.last() == after.last());
        assert(white_space(after[after.len() - 1]));
        assert forall|i: int| 0 <= i < after.drop_last().len() implies white_space(
            #[trigger] after.drop_last()[i],
        ) by {
            assert(after.drop_last()[i] == after[i]);
        }
        trimming_takes_the_white_space_at_the_ends(before, s, after.drop_last());
        assert(all.drop_last() =~= before + s + after.drop_last());
    } else {
        assert(all =~= s);
        assert(trimmed(s) == s);
    }
}

/// A run of characters with no white space among them is one word, and nothing is
/// none. With [`white_space_parts_words`] this says what the words of any text are.
pub proof fn unbroken_run_is_one_word(s: Seq<char>)
    requires
        forall|i: int| 0 <= i < s.len() ==> !white_space(#[trigger] s[i]),
    ensures
        s.len() > 0 ==> words(s) == seq![s],
        s.len() == 0 ==> words(s) == Seq::<Seq<char>>::empty(),
{
    if s.len() > 0 {
        lemma_word_len_whole(s);
        assert(s.take(s.len() as int) =~= s);
        assert(words(s.skip(s.len() as int)) =~= Seq::empty());
        assert(words(s) =~= seq![s]);
    }
}

proof fn lemma_word_len_whole(s: Seq<char>)
    requires
        forall|i: int| 0 <= i < s.len() ==> !white_space(#[trigger] s[i]),
    ensures
        word_len(s) == s.len(),
    decreases s.len(),
{
    if s.len() > 0 {
        let rest = s.drop_first();
        assert forall|i: int| 0 <= i < rest.len() implies !white_space(#[trigger] rest[i]) by {
            assert(rest[i] == s[i + 1]);
        }
        lemma_word_len_whole(rest);
    }
}

proof fn lemma_line_len_whole(s: Seq<char>)
    requires
        !s.contains('\n'),
    ensures
        line_len(s) == s.len(),
{
    lemma_line_len(s);
}

proof fn lemma_returns_off(s: Seq<char>, ends: Seq<char>)
    requires
        forall|i: int| 0 <= i < ends.len() ==> #[trigger] ends[i] == '\r',
        s.len() > 0 ==> s.last() != '\r',
    ensures
        without_returns(s + ends) == s,
    decreases ends.len(),
{
    if ends.len() > 0 {
        assert(ends[ends.len() - 1] == '\r');
        assert((s + ends).drop_last() =~= s + ends.drop_last());
        lemma_returns_off(s, ends.drop_last());
    } else {
        assert(s + ends =~= s);
    }
}

/// What stands on a line is that line, without the carriage returns and the line
/// feed that end it, and a line with nothing but those on it is none. With
/// [`line_feed_parts_lines`] this says what the lines of any text are.
pub proof fn line_is_what_stands_on_it(s: Seq<char>, ends: Seq<char>)
    requires
        !s.contains('\n'),
        s.len() > 0 ==> s.last() != '\r',
        forall|i: int| 0 <= i < ends.len() ==> #[trigger] ends[i] == '\r',
    ensures
        s.len() > 0 ==> lines(s + ends) == seq![s] && lines(s + ends + seq!['\n']) == seq![s],
        s.len() == 0 ==> lines(s + ends).len() == 0 && lines(s + ends + seq!['\n']).len()
            == 0,
{
    let line = s + ends;
    let ended = line + seq!['\n'];
    assert(!line.contains('\n')) by {
        assert forall|i: int| 0 <= i < line.len() implies line[i] != '\n' by {
            if i < s.len() {
                assert(line[i] == s[i]);
            } else {
                assert(line[i] == ends[i - s.len()]);
            }
        }
    }
    lemma_line_len_whole(line);
    lemma_returns_off(s, ends);
    assert(line.take(line.len() as int) =~= line);
    assert(line_len(ended) == line.len()) by {
        lemma_line_len(ended);
        if line_len(ended) < line.len() {
            assert(ended[line_len(ended) as int] == line[line_len(ended) as int]);
        }
        assert(ended[line.len() as int] == '\n');
    }
    assert(ended.take(line.len() as int) =~= line);
    assert(after_line(ended) =~= Seq::empty());
    assert(lines(Seq::empty()) =~= Seq::empty());
    if s.len() > 0 {
        assert(lines(line) =~= seq![s]);
        assert(lines(ended) =~= seq![s]);
    }
}

/// The number that some decimal digits stand for.
pub open spec fn value(digits: Seq<char>) -> int
    decreases digits.len(),
{
    if digits.len() == 0 {
        0
    } else {
        10 * value(digits.drop_last()) + (digits.last() as int - '0' as int)
    }
}

/// A number is written with the digits that stand for it, and no zero before them.
pub proof fn decimal_stands_for_the_number(n: nat)
    ensures
        value(decimal(n)) == n,
        decimal(n).len() > 0,
        forall|i: int| 0 <= i < decimal(n).len() ==> '0' <= #[trigger] decimal(n)[i] <= '9',
        n > 0 ==> decimal(n)[0] != '0',
        n == 0 ==> decimal(n).len() == 1,
    decreases n,
{
    reveal_strlit("0123456789");
    if n < 10 {
        assert(decimal(n).drop_last() =~= Seq::empty());
        assert(value(Seq::empty()) == 0);
    } else {
        decimal_stands_for_the_number(n / 10);
        assert(decimal(n).drop_last() =~= decimal(n / 10));
        assert forall|i: int| 0 <= i < decimal(n).len() implies '0' <= #[trigger] decimal(n)[i]
            <= '9' by {
            if i < decimal(n / 10).len() {
                assert(decimal(n)[i] == decimal(n / 10)[i]);
            }
        }
        assert(decimal(n)[0] == decimal(n / 10)[0]);
    }
}

/// A list of texts says what each of them says, in order.
pub proof fn texts_say_what_each_says(list: Seq<&str>)
    ensures
        texts(list).len() == list.len(),
        forall|i: int| 0 <= i < list.len() ==> #[trigger] texts(list)[i] == list[i]@,
{
}

/// Whether two texts say the same.
pub(crate) fn same_text(a: &str, b: &str) -> (r: bool)
    ensures
        r == (a@ == b@),
{
    let x = chars_of(a);
    let y = chars_of(b);
    if x.len() != y.len() {
        return false;
    }
    for i in 0..x.len()
        invariant
            x@ == a@,
            y@ == b@,
            x@.len() == y@.len(),
            forall|j: int| 0 <= j < i ==> x@[j] == y@[j],
    {
        if x[i] != y[i] {
            return false;
        }
    }
    assert(a@ =~= b@);
    true
}

} // verus!
