use phantom_proxy::line_parser::get_lines;

#[test]
fn lines_of_a_list() {
    assert_eq!(get_lines("/admin\n/internal/debug\n"), vec!["/admin", "/internal/debug"]);
}

#[test]
fn lines_need_no_final_terminator() {
    assert_eq!(get_lines("/admin\n/internal/debug"), vec!["/admin", "/internal/debug"]);
}

#[test]
fn lines_of_empty_text_are_none() {
    assert_eq!(get_lines(""), Vec::<&str>::new());
}

#[test]
fn lines_may_be_empty() {
    assert_eq!(get_lines("\n"), vec![""]);
    assert_eq!(get_lines("a\n\nb\n\n"), vec!["a", "", "b", ""]);
}

#[test]
fn lines_end_at_crlf_too() {
    assert_eq!(get_lines("a\r\nb\r\n"), vec!["a", "b"]);
    assert_eq!(get_lines("a\r\r\nb\r"), vec!["a\r", "b\r"]);
}

#[test]
fn lines_keep_their_white_space() {
    assert_eq!(get_lines(" /a \n\t/b\n"), vec![" /a ", "\t/b"]);
}

#[test]
fn lines_agree_with_std_lines() {
    let samples = [
        "",
        "\n",
        "\r\n",
        "\r",
        "a",
        "a\n",
        "a\nb",
        "a\r\nb\r\n",
        "a\r\r\n\r\nb\r",
        "\n\n\n",
        "h\u{e9}\r\n\u{20ac}\n\u{1F600}\r\n",
        "x\ny\rz\n\r",
    ];
    for s in samples {
        assert_eq!(get_lines(s), s.lines().collect::<Vec<&str>>(), "input {:?}", s);
    }
}
