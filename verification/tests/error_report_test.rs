//! Tests of the error report of a lexed ABC input.

use abctool::abc_lexer::{
    format_error_message, format_error_message_from_abc, Context, During, LexError, Lexer,
    NumberRole,
};

fn chars(s: &str) -> Vec<char> {
    s.chars().collect()
}

#[test]
fn report_points_at_the_error() {
    let input = chars("ab\ncd");
    let ctx = Context::new(&input);
    let errors = vec![(ctx, 1, LexError::ExpectedColon)];
    let (n, unshown, message) = format_error_message(&input, errors);
    assert_eq!(n, 1);
    assert_eq!(unshown, 0);
    assert_eq!(
        message,
        "   ab\n!   \u{25B2} I expected to see a colon here.\n   cd\n   "
    );
}

#[test]
fn report_pyramid_for_two_errors_on_a_line() {
    let input = chars("abc");
    let ctx = Context::new(&input);
    let errors = vec![
        (ctx, 0, LexError::ExpectedColon),
        (ctx, 2, LexError::UnrecognisedNote),
    ];
    let (n, unshown, message) = format_error_message(&input, errors);
    assert_eq!(n, 2);
    assert_eq!(unshown, 0);
    assert_eq!(
        message,
        "   abc\n!  \u{25B2} \u{25B2} I didn't understand how to read this note.\n!  \u{2517} I expected to see a colon here.\n   "
    );
}

#[test]
fn report_counts_errors_not_shown() {
    let input = chars("abc\n");
    let ctx = Context::new(&input);
    let errors = vec![
        (ctx, 1, LexError::ExpectedColon),
        (ctx, 1, LexError::UnrecognisedNote),
        (ctx, 9, LexError::UnrecognisedNote),
    ];
    let (n, unshown, message) = format_error_message(&input, errors);
    assert_eq!(n, 3);
    assert_eq!(unshown, 1);
    assert_eq!(message, "   abc\n!   \u{25B2} I expected to see a colon here.\n   ");
}

#[test]
fn report_indents_the_lines_of_a_message() {
    let input = chars("x");
    let ctx = Context::new(&input);
    let errors = vec![(ctx, 0, LexError::ExpectedNumber(NumberRole::UpperTimeSignature))];
    let (_, _, message) = format_error_message(&input, errors);
    assert_eq!(
        message,
        "   x\n!  \u{25B2} I expected to find a number here.\n     I expected the first / upper part of a time signature.\n   "
    );
}

#[test]
fn report_of_empty_input() {
    let input = chars("");
    let (n, unshown, message) = format_error_message(&input, vec![]);
    assert_eq!((n, unshown, message.as_str()), (0, 0, "   "));
}

#[test]
fn report_from_abc_counts_lexer_errors() {
    let input = chars("T:Title\nM:6/\nC:Composer\n");
    let errors = Lexer::new(&input).collect_errors();
    let (n, unshown, message) = format_error_message_from_abc(&input);
    assert_eq!(n, errors.len());
    assert_eq!(n, 1);
    assert_eq!(unshown, 0);
    assert!(message.starts_with("   T:Title\n   M:6/\n!  "));
    assert!(message.contains("I expected to find a number here."));
}

#[test]
fn error_format_messages() {
    let mut buf = String::new();
    LexError::ExpectedDelimiter('\n').format(2, &mut buf);
    assert_eq!(buf, "I expected to find a new-line here.");
    let mut buf = String::new();
    LexError::ExpectedDelimiter('|').format(2, &mut buf);
    assert_eq!(buf, "I expected to find the character '|' here.");
    let mut buf = String::from("> ");
    LexError::UnimplementedError(42).format(0, &mut buf);
    assert_eq!(
        buf,
        "> I'm confused, sorry. Please email joe@afandian.com with your ABC and quote number '42' and I'll see if I can fix it."
    );
    let mut buf = String::new();
    LexError::ExpectedFieldType('Y').format(1, &mut buf);
    assert!(buf.starts_with("I found a header of 'Y' but I don't understand it.\n Recognised headers:\n A: Geographical Area\n"));
    assert!(buf.ends_with(" Z: Transcription note"));
}

#[test]
fn premature_end_names_the_tune_and_appends_no_newline() {
    let mut buf = String::new();
    LexError::PrematureEnd(During::Metre).format(3, &mut buf);
    assert!(buf.starts_with("I've got to the end of the ABC tune before I'm ready.\n   "));
    assert!(!buf.ends_with('\n'));
    let input = chars("M:");
    let (n, unshown, message) = format_error_message_from_abc(&input);
    assert_eq!((n, unshown), (1, 0));
    assert!(message.contains("I've got to the end of the ABC tune before I'm ready."));
}
