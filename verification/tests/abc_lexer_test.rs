//! Tests of the ABC lexer.

use abctool::abc_lexer::{
    lex_barline, lex_metre, read, read_key_note, read_mode, read_n_time, read_number, read_until,
    Context, During, LexError, LexResult, Lexer, NumberRole, T,
};

fn string_to_vec(input: String) -> Vec<char> {
    input.chars().collect::<Vec<char>>()
}

const EMPTY: &str = "";

const BUTTERFLY: &str = "X:24
T:Butterfly, The
M:9/8
L:1/8
C:John Potts
E:15
Z:Boston
R:slip jig
K:EDor
B2EG2EF3|B2EG2E FED|B2EG2EF3|B2dd2B AFD:|
B2=ce2fg3|B2d g2e dBA|B2=ce2fg2a|b2ag2e dBA:|
B2BB2AG2A|B3 BAB dBA|~B3 B2AG2A|B2dg2e dBA:|";


#[test]
fn context_has() {
    //
    // Empty
    //
    let empty = string_to_vec(String::from(EMPTY));
    let some = string_to_vec(String::from(BUTTERFLY));
    let empty_context = Context::new(&empty);
    let some_context = Context::new(&some);

    assert_eq!(
        empty_context.has(0),
        true,
        "Empty string has at least 0 characters"
    );

    assert_eq!(
        empty_context.take(0),
        Some((empty_context, &(vec![])[..])),
        "Empty input take zero returns empty, context unchanged."
    );

    assert_eq!(
        empty_context.has(1),
        false,
        "Empty string doesn't have one characters."
    );

    assert_eq!(
        empty_context.has(20),
        false,
        "Empty string doesn't lots of characters."
    );

    assert_eq!(empty_context.take(5), None, "Empty input can't take any.");


    //
    // Non-empty
    //

    assert_eq!(
        some_context.has(0),
        true,
        "Empty string has at least 0 characters"
    );

    assert_eq!(
        some_context.take(0),
        Some((some_context, &(vec![])[..])),
        "Empty input take zero returns subsequence, context reflects this."
    );

    assert_eq!(
        some_context.has(1),
        true,
        "Empty string has one characters."
    );

    assert_eq!(
        some_context.has(20),
        true,
        "Empty string has lots of characters."
    );

    assert_eq!(
        some_context.take(5),
        Some((
            some_context.skip(5),
            &(vec!['X', ':', '2', '4', '\n'])[..],
        )),
        "Empty input can't take any."
    );
}

#[test]
fn context_skip_whitespace() {
    let empty = string_to_vec("".to_string());
    let some = string_to_vec("   hello".to_string());
    let none = string_to_vec("hello".to_string());

    assert_eq!(
        Context::new(&empty).skip_whitespace(),
        Context::new(&empty),
        "skip_whitespace() on empty string makes no change"
    );

    assert_eq!(
        Context::new(&some).skip_whitespace(),
        Context::new(&some).skip(3),
        "skip_whitespace() skips to first non-whitespace character"
    );

    assert_eq!(
        Context::new(&none).skip_whitespace(),
        Context::new(&none).skip(0),
        "skip_whitespace() no change when no whitespace"
    );
}


#[test]
fn lexer_can_skip_err() {
    // Input has one good field, one with an error, then another good one.
    let input = &(string_to_vec("T:Title\nM:6/\nC:Composer\n".to_string()));

    // The iterator's result should include all errors and context.
    let all_results = Lexer::new(input).collect_results();

    // Check that we returned token, error, token.
    match all_results[0] {
        LexResult::T(_, ref tokens) => assert_eq!(tokens, &[T::Title("Title".to_string())]),
        _ => assert!(false),
    }

    match all_results[1] {
        LexResult::Error(_, _, LexError::ExpectedNumber(NumberRole::LowerTimeSignature)) => {
            assert!(true)
        }
        _ => assert!(false),
    }

    match all_results[2] {
        LexResult::T(_, ref tokens) => {
            assert_eq!(tokens, &[T::Composer("Composer".to_string())])
        }
        _ => assert!(false),
    }

    // The collect_tokens() allows collection of tokens ignoring the errors.
    assert_eq!(
        Lexer::new(input).collect_tokens(),
        vec![
            T::Title("Title".to_string()),
            T::Composer("Composer".to_string()),
        ]
    );
}

// Test for every header to make sure everything hangs together.
#[test]
fn read_headers_test() {
    // Some have leading whitespace, which should be ignored.
    let input = &(string_to_vec(
        "A:AREA
B:BOOK
C:COMPOSER
D:DISCOGRAPHY
F:FILENAME
G: GROUP
H:HISTORY
I:INFO
N:NOTES
O:ORIGIN
S:SOURCE
T:TITLE
W:WORDS
X:100
Z:TRANSCRIPTION
M:2/4
M:        5/8
L:1/8
K:    GFmaj
"
            .to_string(),
    ));

    let lexer = Lexer::new(input);
    let tokens = lexer.collect_tokens();

    let err_lexer = Lexer::new(input);
    let errors = err_lexer.collect_errors();
    assert_eq!(errors.len(), 0, "Expected no errors but got: {:?}", errors);

    assert_eq!(
        tokens,
        vec![
            T::Area("AREA".to_string()),
            T::Book("BOOK".to_string()),
            T::Composer("COMPOSER".to_string()),
            T::Discography("DISCOGRAPHY".to_string()),
            T::Filename("FILENAME".to_string()),
            T::Group("GROUP".to_string()),
            T::History("HISTORY".to_string()),
            T::Information("INFO".to_string()),
            T::Notes("NOTES".to_string()),
            T::Origin("ORIGIN".to_string()),
            T::Source("SOURCE".to_string()),
            T::Title("TITLE".to_string()),
            T::Words("WORDS".to_string()),
            T::X("100".to_string()),
            T::Transcription("TRANSCRIPTION".to_string()),
            T::Metre(2, 4),
            T::Metre(5, 8),
            T::DefaultNoteLength(abctool::music::FractionalDuration(1, 8)),
            T::KeySignature(
                abctool::music::PitchClass {
                    diatonic_pitch_class: abctool::music::DiatonicPitchClass::G,
                    accidental: Some(abctool::music::Accidental::Flat),
                },
                abctool::music::Mode::Major
            ),
        ]
    );

    // Make sure we can lex Windows and Unix line endings.
    let input = &(string_to_vec("T:TITLE\r\nB:BOOK\n".to_string()));

    let tokens = Lexer::new(input).collect_tokens();

    assert_eq!(
        tokens,
        vec![T::Title("TITLE".to_string()), T::Book("BOOK".to_string())]
    );
}

/// Errors for reading headers.
#[test]
fn header_errs() {
    // Unrecognised start of header.
    match read(Context::new(&(string_to_vec("Y:x\n".to_string())))) {
        LexResult::Error(_, _, LexError::UnexpectedHeaderLine) => {
            assert!(
                true,
                "Should get UnexpectedHeaderLine when an unrecognised header line started"
            )
        }
        _ => assert!(false),
    }

    // Good looking header but unrecognised field name.
    match read(Context::new(&(string_to_vec("Y:What\n".to_string())))) {
        LexResult::Error(_, _, LexError::UnexpectedHeaderLine) => {
            assert!(
                true,
                "Should get UnexpectedHeaderLine when an unrecognised field type"
            )
        }
        _ => assert!(false),
    }

    // No delimiter (i.e. newline) for field.
    match read(Context::new(&(string_to_vec("T:NeverEnding".to_string())))) {
        LexResult::Error(_, _, LexError::ExpectedDelimiter('\n')) => {
            assert!(
                true,
                "Should get ExpectedDelimiter there isn't a newline available"
            )
        }
        _ => assert!(false),
    }

    // Header without colon.
    match read(Context::new(&(string_to_vec("TNoColon".to_string())))) {
        LexResult::Error(_, _, LexError::ExpectedColon) => {
            assert!(
                true,
                "Should get ExpectedColon there isn't a newline available"
            )
        }
        _ => assert!(false),
    }


    // Header with unexpected termination.
    match read(Context::new(&(string_to_vec("T".to_string())))) {
        LexResult::Error(_, _, LexError::PrematureEnd(During::Header)) => {
            assert!(
                true,
                "Should get ExpectedColon there isn't a newline available"
            )
        }
        _ => assert!(false),
    }
}

/// Errors for reading the tune body.
#[test]
fn body_errs() {
    // Unexpected character at start of an entity.
    match read(Context::new(&(string_to_vec("x".to_string()))).in_body()) {
        LexResult::Error(_, _, LexError::UnexpectedBodyChar(_)) => {
            assert!(
                true,
                "Should get ExpectedColon there isn't a newline available"
            )
        }
        _ => assert!(false),
    }
}

/// Tests for simple entities in the tune body.
#[test]
fn body_simple_entities() {
    // End of file in tune body.
    match read(Context::new(&(string_to_vec("".to_string()))).in_body()) {
        LexResult::Terminal => {
            assert!(
                true,
                "Should lex terminal if end of string in body section."
            )
        }
        _ => assert!(false),
    }

    // End of file in tune body.
    assert_eq!(
        Lexer::new(&(string_to_vec("\n".to_string())))
            .in_body()
            .collect_tokens(),
        vec![T::Newline]
    )

}

#[test]
fn read_until_test() {
    let input = &(string_to_vec(String::from("This\nthat")));
    let context = Context::new(input);

    let result = read_until(context, '\n');

    match result {
        Ok((ctx, value)) => {
            assert_eq!(value, &['T', 'h', 'i', 's']);
            assert_eq!(
                ctx.i,
                5,
                "Next i should be next character after closing delimiter."
            );
        }
        _ => assert!(false, "No result"),
    }
}

#[test]
fn read_number_test() {
    //
    // Match various inputs that terminate at the end of the input.
    //

    // Single digits.
    match read_number(
        Context::new(&(string_to_vec(String::from("0")))),
        NumberRole::UpperTimeSignature,
    ) {
        Ok((_, val)) => assert_eq!(val, 0, "Can read single digit."),
        _ => assert!(false),
    }

    match read_number(
        Context::new(&(string_to_vec(String::from("1")))),
        NumberRole::UpperTimeSignature,
    ) {
        Ok((_, val)) => assert_eq!(val, 1, "Can read single digit."),
        _ => assert!(false),
    }

    // Longer.
    match read_number(
        Context::new(&(string_to_vec(String::from("12345")))),
        NumberRole::UpperTimeSignature,
    ) {
        Ok((_, val)) => assert_eq!(val, 12345),
        _ => assert!(false),
    }

    // Max length.
    match read_number(
        Context::new(&(string_to_vec(String::from("12345678")))),
        NumberRole::UpperTimeSignature,
    ) {
        Ok((_, val)) => assert_eq!(val, 12345678),
        _ => assert!(false),
    }

    //
    // Match various inputs followed by something else.
    //
    match read_number(
        Context::new(&(string_to_vec(String::from("0X")))),
        NumberRole::UpperTimeSignature,
    ) {
        Ok((ctx, val)) => {
            assert_eq!(val, 0, "Can read single digit.");
            assert_eq!(ctx.i, 1, "Index at next character after number.");
        }

        _ => assert!(false),
    }

    match read_number(
        Context::new(&(string_to_vec(String::from("1X")))),
        NumberRole::UpperTimeSignature,
    ) {
        Ok((ctx, val)) => {
            assert_eq!(val, 1, "Can read single digit.");
            assert_eq!(ctx.i, 1, "Index at next character after number.");
        }
        _ => assert!(false),
    }

    // Longer.
    match read_number(
        Context::new(&(string_to_vec(String::from("12345X")))),
        NumberRole::UpperTimeSignature,
    ) {
        Ok((ctx, val)) => {
            assert_eq!(val, 12345, "Can read longer number.");
            assert_eq!(ctx.i, 5, "Index at next character after number.");
        }
        _ => assert!(false),
    }

    // Max length.
    match read_number(
        Context::new(&(string_to_vec(String::from("1234567X")))),
        NumberRole::UpperTimeSignature,
    ) {
        Ok((ctx, val)) => {
            assert_eq!(val, 1234567, "Can read max length number.");
            assert_eq!(ctx.i, 7, "Index at next character after number.");
        }
        _ => assert!(false),
    }

    //
    // Errors
    //

    // Too long to end of input.
    match read_number(
        Context::new(&(string_to_vec(String::from("123456789")))),
        NumberRole::UpperTimeSignature,
    ) {
        Err((_, _, LexError::NumberTooLong(_))) => {
            assert!(true, "Should fail with NumberTooLong")
        }
        _ => assert!(false),
    }

    // No input.
    match read_number(
        Context::new(&(string_to_vec(String::from("")))),
        NumberRole::UpperTimeSignature,
    ) {
        Err((_, _, LexError::ExpectedNumber(_))) => {
            assert!(true, "Should fail with ExpectedNumber")
        }
        _ => assert!(false),
    }

    // Not a number.
    match read_number(
        Context::new(&(string_to_vec(String::from("five")))),
        NumberRole::UpperTimeSignature,
    ) {
        Err((_, _, LexError::ExpectedNumber(_))) => {
            assert!(true, "Should fail with ExpectedNumber")
        }
        _ => assert!(false),
    }

    // NumberRole should be passed through.
    match read_number(
        Context::new(&(string_to_vec(String::from("XX")))),
        NumberRole::UpperTimeSignature,
    ) {
        Err((_, _, LexError::ExpectedNumber(NumberRole::UpperTimeSignature))) => {
            assert!(
                true,
                "Correct NumberRole should be passed through to error."
            )
        }
        _ => assert!(false),
    }

    match read_number(
        Context::new(&(string_to_vec(String::from("XX")))),
        NumberRole::LowerTimeSignature,
    ) {
        Err((_, _, LexError::ExpectedNumber(NumberRole::LowerTimeSignature))) => {
            assert!(
                true,
                "Correct NumberRole should be passed through to error."
            )
        }
        _ => assert!(false),
    }
}

#[test]
fn lex_metre_test() {
    //
    // Errors
    //

    // Valid time signature but no delimiter means in practice that the field never terminated.
    match lex_metre(Context::new(&(string_to_vec(String::from("C")))), '\n') {
        LexResult::Error(_, _, LexError::PrematureEnd(During::Metre)) => {
            assert!(true, "Should fail with ExpectedMetre")
        }
        _ => assert!(false),
    }

    // Empty time signature.
    match lex_metre(Context::new(&(string_to_vec(String::from("")))), '\n') {
        LexResult::Error(_, _, LexError::PrematureEnd(During::Metre)) => {
            assert!(true, "Should fail with ExpectedMetre")
        }
        _ => assert!(false),
    }

    // Stupid invalid numbers.
    match lex_metre(
        Context::new(&(string_to_vec(String::from("20000000000/1\n")))),
        '\n',
    ) {
        LexResult::Error(_, _, LexError::NumberTooLong(_)) => {
            assert!(true, "Numerator fail with NumberTooLong")
        }
        _ => assert!(false),
    }

    match lex_metre(
        Context::new(&(string_to_vec(String::from("6/80000000000000000\n")))),
        '\n',
    ) {
        LexResult::Error(_, _, LexError::NumberTooLong(_)) => {
            assert!(true, "Denomenator fail with NumberTooLong")
        }
        _ => assert!(false),
    }

    //
    // Shorthand.
    //
    match lex_metre(Context::new(&(string_to_vec(String::from("C\n")))), '\n') {
        LexResult::T(_, tokens) => assert_eq!(tokens, &[T::Metre(4, 4)], "C should be parsed"),
        _ => assert!(false),
    }

    match lex_metre(Context::new(&(string_to_vec(String::from("C|\n")))), '\n') {
        LexResult::T(_, tokens) => assert_eq!(tokens, &[T::Metre(2, 4)], "C should be parsed"),
        _ => assert!(false),
    }

    //
    // Numerical
    //
    match lex_metre(Context::new(&(string_to_vec(String::from("2/4\n")))), '\n') {
        LexResult::T(_, tokens) => {
            assert_eq!(
                tokens,
                &[T::Metre(2, 4)],
                "2/4 time signature should be parsed"
            )
        }
        _ => assert!(false),
    }

    match lex_metre(Context::new(&(string_to_vec(String::from("6/8\n")))), '\n') {
        LexResult::T(_, tokens) => {
            assert_eq!(
                tokens,
                &[T::Metre(6, 8)],
                "6/8 time signature should be parsed"
            )
        }
        _ => assert!(false),
    }

    match lex_metre(
        Context::new(&(string_to_vec(String::from("200/400\n")))),
        '\n',
    ) {
        LexResult::T(_, tokens) => {
            assert_eq!(
                tokens,
                &[T::Metre(200, 400)],
                "Ridiculous but valid time signature should be parsed"
            )
        }
        _ => assert!(false),
    }
}

#[test]
fn read_until_no_delimiter() {
    let input = &(string_to_vec(String::from("This and that")));
    let context = Context::new(input);

    let result = read_until(context, '\n');

    match result {
        Err(_) => assert!(true, "No closing delimiter should result in error."),
        Ok(_) => assert!(false, "No closing delimiter not return a value."),
    }
}

// Tests for read()
#[test]
fn read_terminal() {
    let empty = &(string_to_vec(String::from(EMPTY)));
    let context = Context::new(empty);

    match read(context) {
        LexResult::Terminal => assert!(true, "Empty results in Terminal character"),
        _ => assert!(false, "Terminal should be returned"),
    }
}

#[test]
fn read_key_note_test() {
    let input = &(string_to_vec(String::from(EMPTY)));
    let context = Context::new(input);
    match read_key_note(context) {
        None => assert!(true, "Read key note empty string gives None"),
        x => assert!(false, "Expected None: {:?}", x),
    }

    let input = &(string_to_vec("C".to_string()));
    let context = Context::new(input);
    match read_key_note(context) {
        Some((_,
              abctool::music::PitchClass {
                  diatonic_pitch_class: abctool::music::DiatonicPitchClass::C,
                  accidental: None,
              })) => assert!(true, "Read diatonic key note only, followed by EOF"),
        x => assert!(false, "Expected diatonic pitch class: {:?}", x),
    }

    let input = &(string_to_vec("C\n".to_string()));
    let ctx = Context::new(input);
    match read_key_note(ctx) {
        Some((new_ctx,
              abctool::music::PitchClass {
                  diatonic_pitch_class: abctool::music::DiatonicPitchClass::C,
                  accidental: None,
              })) => {
            assert_eq!(
                new_ctx,
                ctx.skip(1),
                "Read diatonic key note only, followed by something irrelevant"
            )
        }
        x => assert!(false, "Expected diatonic pitch class: {:?}", x),
    }

    let input = &(string_to_vec("F#\n".to_string()));
    let ctx = Context::new(input);
    match read_key_note(ctx) {
        Some((new_ctx,
              abctool::music::PitchClass {
                  diatonic_pitch_class: abctool::music::DiatonicPitchClass::F,
                  accidental: Some(abctool::music::Accidental::Sharp),
              })) => {
            assert_eq!(
                new_ctx,
                ctx.skip(2),
                "Read diatonic key note and accidental, followed by something irrelevant"
            )
        }
        x => assert!(false, "Expected diatonic pitch class: {:?}", x),
    }

    let input = &(string_to_vec("Gf".to_string()));
    let ctx = Context::new(input);
    match read_key_note(ctx) {
        Some((new_ctx,
              abctool::music::PitchClass {
                  diatonic_pitch_class: abctool::music::DiatonicPitchClass::G,
                  accidental: Some(abctool::music::Accidental::Flat),
              })) => {
            assert_eq!(
                new_ctx,
                ctx.skip(2),
                "Read diatonic key note and accidental, followed by EOF"
            )
        }
        x => assert!(false, "Expected diatonic pitch class: {:?}", x),
    }
}

#[test]
fn read_mode_test() {

    // Case insensitive long form, ignoring spaces.
    // Test both, to ensure that the short one doesn't get matched, leaving ctx dangling in the
    // middle of a word.
    let input = &(string_to_vec("major".to_string()));
    let ctx = Context::new(input);
    match read_mode(ctx) {
        Some((new_ctx, abctool::music::Mode::Major)) => {
            assert_eq!(new_ctx, ctx.skip(5), "Read normal mode works")
        }
        x => assert!(false, "Expected mode got: {:?}", x),
    };

    let input = &(string_to_vec("MaJoR".to_string()));
    let ctx = Context::new(input);
    match read_mode(ctx) {
        Some((new_ctx, abctool::music::Mode::Major)) => {
            assert_eq!(
                new_ctx,
                ctx.skip(5),
                "Read normal mode works, case insensitive"
            )
        }
        x => assert!(false, "Expected mode got: {:?}", x),
    }

    let input = &(string_to_vec("     MaJoR".to_string()));
    let ctx = Context::new(input);
    match read_mode(ctx) {
        Some((new_ctx, abctool::music::Mode::Major)) => {
            assert_eq!(
                new_ctx,
                ctx.skip(10),
                "Read normal mode works and skips leading whitespace, case insensitive"
            )
        }
        x => assert!(false, "Expected mode got: {:?}", x),
    }

    // Case insensitive short form, ignoring spaces.
    let input = &(string_to_vec("maj".to_string()));
    let ctx = Context::new(input);
    match read_mode(ctx) {
        Some((new_ctx, abctool::music::Mode::Major)) => {
            assert_eq!(new_ctx, ctx.skip(3), "Read normal mode works")
        }
        x => assert!(false, "Expected mode got: {:?}", x),
    };

    let input = &(string_to_vec("MaJ".to_string()));
    let ctx = Context::new(input);
    match read_mode(ctx) {
        Some((new_ctx, abctool::music::Mode::Major)) => {
            assert_eq!(
                new_ctx,
                ctx.skip(3),
                "Read normal mode works and skips leading whitespace, case insensitive"
            )
        }
        x => assert!(false, "Expected mode got: {:?}", x),
    }

    let input = &(string_to_vec("   MaJ".to_string()));
    let ctx = Context::new(input);
    match read_mode(ctx) {
        Some((new_ctx, abctool::music::Mode::Major)) => {
            assert_eq!(
                new_ctx,
                ctx.skip(6),
                "Read short form mode works, case insensitive, skipping whitespace"
            )
        }
        x => assert!(false, "Expected mode got: {:?}", x),
    }

}

#[test]
fn read_n_time_test() {
    let input = &(string_to_vec("[1".to_string()));
    let ctx = Context::new(input);
    match read_n_time(ctx) {
        (ctx, Some(n_time)) => assert_eq!(n_time, 1),
        x => assert!(false, "Expected ntime got: {:?}", x),
    }

    // Bracket is optional.
    let input = &(string_to_vec("2".to_string()));
    let ctx = Context::new(input);
    match read_n_time(ctx) {
        (ctx, Some(n_time)) => assert_eq!(n_time, 2),
        x => assert!(false, "Expected ntime got: {:?}", x),
    }
}

#[test]
fn lex_barline_test() {
    let input = &(string_to_vec("|".to_string()));
    let ctx = Context::new(input);
    match lex_barline(ctx) {
        LexResult::T(_, tokens) => {
            assert_eq!(
                tokens,
                &[
                    T::Barline(abctool::music::Barline {
                        repeat_before: false,
                        single: true,
                        repeat_after: false,
                        n_time: None,
                    }),
                ]
            )
        }

        x => assert!(false, "Expected barline got: {:?}", x),
    }

    let input = &(string_to_vec("|:".to_string()));
    let ctx = Context::new(input);
    match lex_barline(ctx) {
        LexResult::T(_, tokens) => {
            assert_eq!(
                tokens,
                &[
                    T::Barline(abctool::music::Barline {
                        repeat_before: false,
                        single: true,
                        repeat_after: true,
                        n_time: None,
                    }),
                ]
            )
        }

        x => assert!(false, "Expected barline got: {:?}", x),
    }

    let input = &(string_to_vec(":|".to_string()));
    let ctx = Context::new(input);
    match lex_barline(ctx) {
        LexResult::T(_, tokens) => {
            assert_eq!(
                tokens,
                &[
                    T::Barline(abctool::music::Barline {
                        repeat_before: true,
                        single: true,
                        repeat_after: false,
                        n_time: None,
                    }),
                ]
            )
        }

        x => assert!(false, "Expected barline got: {:?}", x),
    }

    let input = &(string_to_vec(":|:".to_string()));
    let ctx = Context::new(input);
    match lex_barline(ctx) {
        LexResult::T(_, tokens) => {
            assert_eq!(
                tokens,
                &[
                    T::Barline(abctool::music::Barline {
                        repeat_before: true,
                        single: true,
                        repeat_after: true,
                        n_time: None,
                    }),
                ]
            )
        }

        x => assert!(false, "Expected barline got: {:?}", x),
    }

    let input = &(string_to_vec("::".to_string()));
    let ctx = Context::new(input);
    match lex_barline(ctx) {
        LexResult::T(_, tokens) => {
            assert_eq!(
                tokens,
                &[
                    T::Barline(abctool::music::Barline {
                        repeat_before: true,
                        single: true,
                        repeat_after: true,
                        n_time: None,
                    }),
                ]
            )
        }

        x => assert!(false, "Expected barline got: {:?}", x),
    }

    let input = &(string_to_vec("||".to_string()));
    let ctx = Context::new(input);
    match lex_barline(ctx) {
        LexResult::T(_, tokens) => {
            assert_eq!(
                tokens,
                &[
                    T::Barline(abctool::music::Barline {
                        repeat_before: false,
                        single: false,
                        repeat_after: false,
                        n_time: None,
                    }),
                ]
            )
        }

        x => assert!(false, "Expected barline got: {:?}", x),
    }
}


///
/// N-time repeat bars
///
#[test]
fn lex_barline_n_time_test() {
    let input = &(string_to_vec("|[1".to_string()));
    let ctx = Context::new(input);
    match lex_barline(ctx) {
        LexResult::T(_, tokens) => {
            assert_eq!(
                tokens,
                &[
                    T::Barline(abctool::music::Barline {
                        repeat_before: false,
                        single: true,
                        repeat_after: false,
                        n_time: Some(1),
                    }),
                ]
            )
        }

        x => assert!(false, "Expected barline got: {:?}", x),
    }

    // Bracket is optional.
    let input = &(string_to_vec("|1".to_string()));
    let ctx = Context::new(input);
    match lex_barline(ctx) {
        LexResult::T(_, tokens) => {
            assert_eq!(
                tokens,
                &[
                    T::Barline(abctool::music::Barline {
                        repeat_before: false,
                        single: true,
                        repeat_after: false,
                        n_time: Some(1),
                    }),
                ]
            )
        }

        x => assert!(false, "Expected barline got: {:?}", x),
    }

    let input = &(string_to_vec(":|[2".to_string()));
    let ctx = Context::new(input);
    match lex_barline(ctx) {
        LexResult::T(_, tokens) => {
            assert_eq!(
                tokens,
                &[
                    T::Barline(abctool::music::Barline {
                        repeat_before: true,
                        single: true,
                        repeat_after: false,
                        n_time: Some(2),
                    }),
                ]
            )
        }

        x => assert!(false, "Expected barline got: {:?}", x),
    }

    let input = &(string_to_vec(":|2".to_string()));
    let ctx = Context::new(input);
    match lex_barline(ctx) {
        LexResult::T(_, tokens) => {
            assert_eq!(
                tokens,
                &[
                    T::Barline(abctool::music::Barline {
                        repeat_before: true,
                        single: true,
                        repeat_after: false,
                        n_time: Some(2),
                    }),
                ]
            )
        }

        x => assert!(false, "Expected barline got: {:?}", x),
    }

}

#[test]
fn starts_with_insensitive_eager_test() {
    let input = &(string_to_vec("".to_string()));
    let ctx = Context::new(input);
    match ctx.starts_with_insensitive_eager(&[]) {
        (new_ctx, true) => assert_eq!(ctx, new_ctx, "Empty string starts with empty string"),
        _ => assert!(false, "Expected match"),
    }

    let input = &(string_to_vec("hello".to_string()));
    let ctx = Context::new(input);
    match ctx.starts_with_insensitive_eager(&[]) {
        (new_ctx, true) => assert_eq!(ctx, new_ctx, "Some string starts with empty string"),
        _ => assert!(false, "Expected match"),
    }

    let input = &(string_to_vec("hello world".to_string()));
    let ctx = Context::new(input);
    match ctx.starts_with_insensitive_eager(&['h', 'e', 'l', 'l', 'o']) {
        (new_ctx, true) => {
            assert_eq!(
                ctx.skip(5),
                new_ctx,
                "Some string starts with its prefix and skip that lenght"
            )
        }
        _ => assert!(false, "Expected match"),
    }

    let input = &(string_to_vec("hello world".to_string()));
    let ctx = Context::new(input);
    match ctx.starts_with_insensitive_eager(&['H', 'e', 'L', 'l', 'O']) {
        (new_ctx, true) => {
            assert_eq!(
                ctx.skip(5),
                new_ctx,
                "Some string starts with its prefix different case and skip that lenght"
            )
        }
        _ => assert!(false, "Expected match"),
    }

    let input = &(string_to_vec("hello world".to_string()));
    let ctx = Context::new(input);
    match ctx.starts_with_insensitive_eager(&['h', 'e', 'l', 'l', 'X']) {
        (new_ctx, false) => {
            assert_eq!(
                ctx,
                new_ctx,
                "Some string doesn't start with prefix that has non-matching char"
            )
        }
        _ => assert!(false, "Expected false"),
    }


    let input = &(string_to_vec("hell".to_string()));
    let ctx = Context::new(input);
    match ctx.starts_with_insensitive_eager(&['h', 'e', 'l', 'l', 'o']) {
        (new_ctx, false) => {
            assert_eq!(ctx, new_ctx, "Prefix longer than context returns false.")
        }
        _ => assert!(false, "Expected false"),
    }
}

#[test]

fn skip_optional_prefix_test() {
    let input = &(string_to_vec("".to_string()));
    let ctx = Context::new(input);
    assert_eq!(
        ctx.skip_optional_prefix(&[]).i,
        0,
        "Offset is not incremented for empty prefix of empty"
    );
    let ctx = Context::new(input);
    assert_eq!(
        ctx.skip_optional_prefix(&['X']).i,
        0,
        "Offset is not incremented for some optional prefix of empty"
    );

    let input = &(string_to_vec("hello".to_string()));
    let ctx = Context::new(input);
    assert_eq!(
        ctx.skip_optional_prefix(&[]).i,
        0,
        "Offset is not incremented for empty prefix of some"
    );
    let ctx = Context::new(input);
    assert_eq!(
        ctx.skip_optional_prefix(&['h', 'e']).i,
        2,
        "Offset is incremented for some prefix of some."
    );
}

#[test]
fn take() {
    let input = string_to_vec("X:24\n".to_string());
    let ctx = Context::new(&input);
    assert_eq!(ctx.take(2), Some((ctx.skip(2), &['X', ':'][..])));
    assert_eq!(ctx.take(5), Some((ctx.skip(5), &['X', ':', '2', '4', '\n'][..])));
    assert_eq!(ctx.take(6), None);
    assert_eq!(ctx.skip(3).take(2), Some((ctx.skip(5), &['4', '\n'][..])));
}

#[test]
fn rest() {
    let input = string_to_vec("X:24\n".to_string());
    let ctx = Context::new(&input);
    assert_eq!(ctx.rest(), &['X', ':', '2', '4', '\n'][..]);
    assert_eq!(ctx.skip(2).rest(), &['2', '4', '\n'][..]);
    assert_eq!(ctx.skip(5).rest(), &[][..] as &[char]);
}

#[test]
fn read_mode_reads_whole_long_form_of_every_mode() {
    let cases = [
        ("  Locrian\n", 9, abctool::music::Mode::Locrian),
        ("phrygian", 8, abctool::music::Mode::Phrygian),
        ("Mixolydian ", 10, abctool::music::Mode::Mixolydian),
        ("loc", 3, abctool::music::Mode::Locrian),
        ("dorx", 3, abctool::music::Mode::Dorian),
    ];
    for (text, offset, mode) in cases.iter() {
        let input = string_to_vec(text.to_string());
        let ctx = Context::new(&input);
        assert_eq!(read_mode(ctx), Some((ctx.skip(*offset), *mode)));
    }
    let input = string_to_vec("xyz".to_string());
    assert_eq!(read_mode(Context::new(&input)), None);
}

#[test]
fn read_key_note_music_signs() {
    let cases = [
        ("F\u{266F}x", 2, abctool::music::Accidental::Sharp),
        ("B\u{266D}", 2, abctool::music::Accidental::Flat),
        ("E\u{266E}", 2, abctool::music::Accidental::Natural),
        ("G\u{266D}\u{266D}", 3, abctool::music::Accidental::DoubleFlat),
        ("Af", 2, abctool::music::Accidental::Flat),
    ];
    for (text, offset, accidental) in cases.iter() {
        let input = string_to_vec(text.to_string());
        let ctx = Context::new(&input);
        match read_key_note(ctx) {
            Some((new_ctx, pitch_class)) => {
                assert_eq!(new_ctx, ctx.skip(*offset));
                assert_eq!(pitch_class.accidental, Some(*accidental));
            }
            None => assert!(false, "Expected a key note in {:?}", text),
        }
    }
}

#[test]
fn read_number_reads_eight_digits_before_a_delimiter() {
    let input = string_to_vec("99999999/".to_string());
    let ctx = Context::new(&input);
    assert_eq!(
        read_number(ctx, abctool::abc_lexer::NumberRole::UpperTimeSignature),
        Ok((ctx.skip(8), 99999999))
    );
    let input = string_to_vec("123456789/".to_string());
    let ctx = Context::new(&input);
    assert!(matches!(
        read_number(ctx, abctool::abc_lexer::NumberRole::UpperTimeSignature),
        Err((_, 0, abctool::abc_lexer::LexError::NumberTooLong(_)))
    ));
}
