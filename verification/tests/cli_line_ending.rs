use editor::cli::{help_lines, parse, usage, Command, ParseError};
use editor::line_ending::{crlf_to_lf, detect_line_ending, lf_to_crlf, LineEnding};

fn args(list: &[&[u8]]) -> Vec<Vec<u8>> {
    list.iter().map(|a| a.to_vec()).collect()
}

#[test]
fn cli_no_argument_edits_a_new_buffer() {
    assert!(matches!(parse(&args(&[])), Ok(Command::Edit(None))));
}

#[test]
fn cli_help_flags() {
    assert!(matches!(parse(&args(&[b"-h"])), Ok(Command::Help)));
    assert!(matches!(parse(&args(&[b"--help"])), Ok(Command::Help)));
    assert!(matches!(parse(&args(&[b"--help", b"x"])), Ok(Command::Help)));
}

#[test]
fn cli_unknown_option_is_an_error() {
    match parse(&args(&[b"-x"])) {
        Err(e) => {
            assert_eq!(e.to_string(), "unknown option: -x");
            let ParseError::UnknownOption(s) = e;
            assert_eq!(s, "-x");
        }
        Ok(_) => panic!("expected an error"),
    }
    assert!(matches!(parse(&args(&[b"--hel"])), Err(ParseError::UnknownOption(_))));
    assert!(matches!(parse(&args(&[b"-"])), Err(ParseError::UnknownOption(_))));
}

#[test]
fn cli_path_argument() {
    match parse(&args(&[b"notes.txt", b"-h"])) {
        Ok(Command::Edit(Some(p))) => assert_eq!(p, b"notes.txt".to_vec()),
        _ => panic!("expected a path"),
    }
}

#[test]
fn cli_path_that_is_not_text_is_taken_as_a_path() {
    match parse(&args(&[&[0x2d, 0xff]])) {
        Ok(Command::Edit(Some(p))) => assert_eq!(p, vec![0x2d, 0xff]),
        _ => panic!("expected a path"),
    }
}

#[test]
fn cli_usage_and_help() {
    assert_eq!(usage(), "usage: editor [-h | --help] [<path>]");
    let lines = help_lines();
    assert_eq!(lines.len(), 7);
    assert_eq!(lines[0], usage());
    assert_eq!(lines[6], "  -h, --help    print this message");
}

#[test]
fn line_ending_follows_the_last_line_break() {
    assert_eq!(detect_line_ending("a\r\nb\r\n"), LineEnding::CRLF);
    assert_eq!(detect_line_ending("a\nb\r\nc"), LineEnding::CRLF);
    assert_eq!(detect_line_ending("a\r\nb\n"), LineEnding::LF);
    assert_eq!(detect_line_ending("abc"), LineEnding::LF);
    assert_eq!(detect_line_ending("\n"), LineEnding::LF);
    assert_eq!(detect_line_ending("\r\n"), LineEnding::CRLF);
    assert_eq!(detect_line_ending(""), LineEnding::LF);
    assert_eq!(LineEnding::default(), LineEnding::LF);
}

#[test]
fn line_ending_replacements() {
    assert_eq!(crlf_to_lf("a\r\nb\r\n"), "a\nb\n");
    assert_eq!(crlf_to_lf("a\r\r\nb\r"), "a\r\nb\r");
    assert_eq!(crlf_to_lf("é\r\n€"), "é\n€");
    assert_eq!(lf_to_crlf("a\nb\n"), "a\r\nb\r\n");
    assert_eq!(lf_to_crlf("a\r\nb"), "a\r\r\nb");
    assert_eq!(lf_to_crlf("plain"), "plain");
}

#[test]
fn line_ending_write_then_read_gives_back_the_text() {
    for s in ["x\r\ny\n", "a\r\r\n\n", "", "\r", "é\n€\r\n"] {
        assert_eq!(crlf_to_lf(&lf_to_crlf(s)), s);
    }
}
