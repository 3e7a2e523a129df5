use wasm_host::messenger::{format_message, prefix, strip_newline, LogLevel, MessageType};

#[test]
fn message_lines_carry_module_name_and_channel() {
    assert_eq!(format_message("tictactoe", MessageType::Info, "hello\n"), ("[tictactoe] info: hello".to_string(), LogLevel::Info));
    assert_eq!(format_message("tictactoe", MessageType::Error, "bad"), ("[tictactoe] error: bad".to_string(), LogLevel::Error));
    assert_eq!(format_message("m", MessageType::Stdout, "out\n\n"), ("[m] stdout: out\n".to_string(), LogLevel::Info));
    assert_eq!(format_message("m", MessageType::Stderr, ""), ("[m] stderr: ".to_string(), LogLevel::Info));
}

#[test]
fn strip_newline_removes_one_trailing_newline() {
    assert_eq!(strip_newline("abc\n"), "abc");
    assert_eq!(strip_newline("abc"), "abc");
    assert_eq!(strip_newline("\n"), "");
    assert_eq!(strip_newline("a\nb"), "a\nb");
    assert_eq!(prefix(MessageType::Stderr), "stderr");
}
