use synology_filestation_mount::text::{decimal_of, is_white_space, lines_of, trim, words_of};

#[test]
fn white_space_is_what_unicode_says_it_is() {
    for n in 0..=0x10ffffu32 {
        if let Some(c) = char::from_u32(n) {
            assert_eq!(is_white_space(c), c.is_whitespace(), "{n:#x}");
        }
    }
}

#[test]
fn text_is_cut_as_std_cuts_it() {
    let texts = [
        "",
        " ",
        "a",
        " a ",
        "\u{3000}caf\u{e9} au\u{2003}lait\u{85}",
        "one\ntwo\r\n\r\nthree\r",
        "\n\n",
        "a\rb\r\r\n c \n",
    ];
    for text in texts {
        assert_eq!(trim(text), text.trim());
        assert_eq!(
            words_of(text),
            text.split_whitespace().collect::<Vec<&str>>()
        );
        let lines: Vec<&str> = text
            .split_inclusive('\n')
            .map(|line| line.trim_end_matches(['\n', '\r']))
            .filter(|line| !line.is_empty())
            .collect();
        assert_eq!(lines_of(text), lines);
    }
}

#[test]
fn lines_keep_everything_but_the_line_ends() {
    let text = "one\r\ntwo\n\nthree";
    assert_eq!(lines_of(text), vec!["one", "two", "three"]);
    assert_eq!(lines_of(text).concat(), "onetwothree");
}

#[test]
fn decimals_are_written_as_std_writes_them() {
    for n in (0..=1000).chain([usize::MAX - 1, usize::MAX]) {
        assert_eq!(decimal_of(n), n.to_string());
    }
    assert_ne!(decimal_of(1), decimal_of(10));
}
