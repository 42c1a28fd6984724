use ziff::content::{file_content, split_lines};

#[test]
fn commands_split_lines_does_not_count_the_newline_that_ends_a_file() {
    assert_eq!(split_lines("one\ntwo\n"), vec!["one", "two"]);
}

#[test]
fn commands_split_lines_keeps_a_last_line_with_no_trailing_newline() {
    assert_eq!(split_lines("one\ntwo"), vec!["one", "two"]);
}

#[test]
fn commands_split_lines_strips_crlf() {
    assert_eq!(split_lines("one\r\ntwo\r\n"), vec!["one", "two"]);
}

#[test]
fn commands_split_lines_of_an_empty_file_has_no_lines() {
    assert!(split_lines("").is_empty());
}

#[test]
fn commands_split_lines_of_a_lone_newline_is_one_empty_line() {
    assert_eq!(split_lines("\n"), vec![""]);
}

#[test]
fn file_split_lines_does_not_count_the_newline_that_ends_a_file() {
    assert_eq!(split_lines("one\ntwo\n"), vec!["one", "two"]);
}

#[test]
fn file_split_lines_keeps_a_last_line_with_no_trailing_newline() {
    assert_eq!(split_lines("one\ntwo"), vec!["one", "two"]);
}

#[test]
fn file_split_lines_strips_crlf() {
    assert_eq!(split_lines("one\r\ntwo\r\n"), vec!["one", "two"]);
}

#[test]
fn file_split_lines_of_an_empty_file_has_no_lines() {
    assert!(split_lines("").is_empty());
}

#[test]
fn file_split_lines_of_a_lone_newline_is_one_empty_line() {
    assert_eq!(split_lines("\n"), vec![""]);
}

#[test]
fn split_lines_keeps_blank_lines_in_the_middle() {
    assert_eq!(split_lines("a\n\n\nb\n"), vec!["a", "", "", "b"]);
}

#[test]
fn split_lines_strips_only_one_carriage_return_and_keeps_inner_ones() {
    assert_eq!(split_lines("a\rb\r\r\n"), vec!["a\rb\r"]);
}

#[test]
fn split_lines_of_multibyte_text_keeps_every_character() {
    assert_eq!(split_lines("顯示\n所有檔案"), vec!["顯示", "所有檔案"]);
}

#[test]
fn split_lines_joined_back_with_newlines_gives_the_text() {
    let text = "fn main() {\n    println!(\"hi\");\n}\n";
    let lines = split_lines(text);
    assert_eq!(format!("{}\n", lines.join("\n")), text);
}

#[test]
fn file_content_reports_a_file_that_is_not_utf8_as_binary() {
    let content = file_content(&[0x89, b'P', b'N', b'G', 0x0d, 0x0a, 0x1a, 0x0a]);
    assert!(content.binary);
}

#[test]
fn file_content_reports_a_binary_file_as_having_no_lines() {
    let content = file_content(&[0x89, b'P', b'N', b'G']);
    assert!(content.lines.is_empty());
}

#[test]
fn file_content_reports_a_text_file_as_not_binary() {
    let content = file_content(b"fn main() {}\n");
    assert!(!content.binary);
    assert_eq!(content.lines, vec!["fn main() {}"]);
}
