use record_lines::{lines, split_fields};

#[test]
fn two_fields() {
    assert_eq!(split_fields("ab,cde"), vec!["ab", "cde"]);
}

#[test]
fn empty_text_is_one_empty_field() {
    assert_eq!(split_fields(""), vec![""]);
}

#[test]
fn commas_at_the_ends_border_empty_fields() {
    assert_eq!(split_fields(",a,"), vec!["", "a", ""]);
    assert_eq!(split_fields(",,"), vec!["", "", ""]);
}

#[test]
fn text_without_comma_is_one_field() {
    assert_eq!(split_fields("Little penguin"), vec!["Little penguin"]);
}

#[test]
fn only_the_comma_parts_fields() {
    assert_eq!(split_fields("a;b，c\td"), vec!["a;b，c\td"]);
}

#[test]
fn joining_the_fields_gives_the_line_back() {
    for line in ["", ",", "a,b,,c", "x"] {
        assert_eq!(split_fields(line).join(","), line);
    }
}

#[test]
fn lines_leave_line_endings_out() {
    assert_eq!(lines("ab\r\ncd\n\nef"), vec!["ab", "cd", "", "ef"]);
}

#[test]
fn lines_keep_white_space() {
    assert_eq!(lines("  a \n\tb\t\n   "), vec!["  a ", "\tb\t", "   "]);
}

#[test]
fn empty_text_has_no_line() {
    assert_eq!(lines(""), Vec::<String>::new());
}

#[test]
fn a_line_feed_alone_is_one_empty_line() {
    assert_eq!(lines("\n"), vec![""]);
    assert_eq!(lines("\n\n"), vec!["", ""]);
}

#[test]
fn the_last_line_ending_is_optional() {
    assert_eq!(lines("a\nb"), vec!["a", "b"]);
    assert_eq!(lines("a\nb\n"), vec!["a", "b"]);
}

#[test]
fn a_carriage_return_before_a_line_feed_belongs_to_the_ending() {
    assert_eq!(lines("a\r\nb\r\n"), vec!["a", "b"]);
    assert_eq!(lines("a\r\r\nb"), vec!["a\r", "b"]);
}

#[test]
fn a_bare_carriage_return_stays() {
    assert_eq!(lines("a\rb\nc\r"), vec!["a\rb", "c\r"]);
    assert_eq!(lines("\r"), vec!["\r"]);
}

#[test]
fn lines_of_text_in_several_scripts() {
    assert_eq!(lines("Grüß Gott!\n世界，你好\r\nWorld, hello!"), vec![
        "Grüß Gott!",
        "世界，你好",
        "World, hello!"
    ]);
}

#[test]
fn lines_agree_with_std() {
    let samples = [
        "",
        "\n",
        "\r\n",
        "\r",
        "a",
        "a\n",
        "a\r\n",
        "a\r",
        "a\n\nb",
        "a\r\n\r\nb\r",
        "common name,length (cm)\nLittle penguin,33\n",
        "x\n\r\ny\n\r",
        "\n\n\n",
        "é\nü",
    ];
    for text in samples {
        let expected: Vec<String> = text.lines().map(|l| l.to_string()).collect();
        assert_eq!(lines(text), expected, "{:?}", text);
    }
}
