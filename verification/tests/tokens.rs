use phantom_proxy::line_parser::get_parts;
use phantom_proxy::text::is_whitespace;

#[test]
fn parts_of_a_request_line() {
    assert_eq!(get_parts("GET /api/v1/example HTTP/1.1"), vec!["GET", "/api/v1/example", "HTTP/1.1"]);
}

#[test]
fn parts_treat_a_run_of_white_space_as_one_separator() {
    assert_eq!(get_parts("POST \t  /y \r HTTP/1.1"), vec!["POST", "/y", "HTTP/1.1"]);
}

#[test]
fn parts_ignore_white_space_at_both_ends() {
    assert_eq!(get_parts("  GET /  "), vec!["GET", "/"]);
}

#[test]
fn parts_of_a_line_without_white_space_is_the_line() {
    assert_eq!(get_parts("GARBAGE"), vec!["GARBAGE"]);
}

#[test]
fn parts_of_empty_and_blank_lines_are_none() {
    assert_eq!(get_parts(""), Vec::<&str>::new());
    assert_eq!(get_parts(" \t\r\n\u{a0}\u{3000}"), Vec::<&str>::new());
}

#[test]
fn parts_split_at_white_space_beyond_ascii() {
    assert_eq!(
        get_parts("a\u{85}b\u{a0}c\u{1680}d\u{2000}e\u{200a}f\u{2028}g\u{2029}h\u{202f}i\u{205f}j\u{3000}k"),
        vec!["a", "b", "c", "d", "e", "f", "g", "h", "i", "j", "k"]
    );
}

#[test]
fn parts_do_not_split_at_look_alikes() {
    assert_eq!(get_parts("a\u{200b}b\u{feff}c\u{1c}d\u{180e}e"), vec!["a\u{200b}b\u{feff}c\u{1c}d\u{180e}e"]);
}

#[test]
fn parts_keep_characters_of_every_width() {
    assert_eq!(
        get_parts("\u{e9}\u{20ac}\u{1F600} x\u{10FFFF}\u{3000}\u{7f}"),
        vec!["\u{e9}\u{20ac}\u{1F600}", "x\u{10FFFF}", "\u{7f}"]
    );
}

#[test]
fn parts_borrow_from_the_line() {
    let line = String::from("GET /admin");
    let parts = get_parts(&line);
    assert_eq!(parts[1].as_ptr(), line[4..].as_ptr());
}

#[test]
fn parts_agree_with_std_split_whitespace() {
    let samples = [
        "",
        " ",
        "a",
        " a",
        "a ",
        "a b",
        "a  b",
        "\ta\nb\rc\u{b}d\u{c}e",
        "GET /admin HTTP/1.1",
        "\u{2003}em\u{2003}space\u{2003}",
        "m\u{fc}nchen \u{6771}\u{4eac}\u{3000}\u{1F980}",
    ];
    for s in samples {
        assert_eq!(get_parts(s), s.split_whitespace().collect::<Vec<&str>>(), "input {:?}", s);
    }
}

#[test]
fn parts_of_a_long_line_with_many_tokens() {
    let line = "ab ".repeat(50_000);
    let parts = get_parts(&line);
    assert_eq!(parts.len(), 50_000);
    assert!(parts.iter().all(|p| *p == "ab"));
}

#[test]
fn white_space_is_what_std_calls_white_space() {
    let mut count = 0;
    for code in 0..=0x10FFFFu32 {
        if let Some(c) = char::from_u32(code) {
            assert_eq!(is_whitespace(c), c.is_whitespace(), "U+{:04X}", code);
            if is_whitespace(c) {
                count += 1;
            }
        }
    }
    assert_eq!(count, 25);
}
