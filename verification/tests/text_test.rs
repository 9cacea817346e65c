//! Tests of title tokenizing.

use abctool::text::{token_list, tokenize};
use std::collections::HashSet;

#[test]
fn test_regressions() {
    // Test regressions.
    // Real output should be at least a superset of the expected output.
    let tests = vec![
        // Lower case.
        (
            "ONE TWO THREE one two three",
            vec!["one", "two", "three", "one", "two", "three"],
        ),
        // Tokenize alphanumeric strings.
        ("ONE1.TWO2.THREE3?", vec!["one1", "two2", "three3"]),
        // From real inputs.
        (
            "High Part of the Road",
            vec!["high", "part", "of", "the", "road"],
        ),
        ("Reel de Montreal", vec!["reel", "de", "montreal"]),
        ("Sonderhoning 3", vec!["sonderhoning", "3"]),
        (
            "Return From Fingal, The",
            vec!["return", "from", "fingal", "the"],
        ),
        ("Rigaudon de Sveran", vec!["rigaudon", "de", "sveran"]),
        (
            "'Walzer aus Bayern' - Walzer/Waltz/Valse",
            vec!["walzer", "aus", "bayern", "walzer", "waltz", "valse"],
        ),
        (
            "4th Dragoons March. JMT.077",
            vec!["4th", "4", "th", "dragoons", "march", "jmt", "077"],
        ),
        ("A Good Roll-up", vec!["a", "good", "roll", "up"]),
        (
            "A HORNPIPE BY C. SMITH",
            vec!["a", "hornpipe", "by", "c", "smith"],
        ),
        ("A Spanish Jigg.", vec!["a", "spanish", "jigg"]),
        ("AIR XXI. Tweed-side.", vec!["air", "xxi", "tweed", "side"]),
        (
            "AIR XXXVI. Bonniest Lass in all the World.",
            vec![
                "air", "xxxvi", "bonniest", "lass", "in", "all", "the", "world",
            ],
        ),
        (
            "All's Well.Primo. JMT.084",
            vec!["all's", "well", "primo", "jmt.084", "jmt", "084"],
        ),
        (
            "Allonby Lasses. BF13.037",
            vec!["allonby", "lasses", "bf13.037", "bf", "13", "037"],
        ),
        ("Ambrose Moloney's", vec!["ambrose", "moloney"]),
        (
            "Aoife's Come to Dublin",
            vec!["aoife", "come", "to", "dublin"],
        ),
        ("Ash Plant, The", vec!["ash", "plant", "the"]),
        (
            "From Atkins Menagerie. CJF.130",
            vec!["from", "atkins", "menagerie", "cjf.130", "cjf", "130"],
        ),
        (
            "Atkins Menagerie,From. CJF.130",
            vec!["atkins", "menagerie", "from", "cjf.130", "cjf", "130"],
        ),
        (
            "AVANT DEUX de SAINT-GRAVAVANT",
            vec!["avant", "deux", "de", "saint", "gravavant"],
        ),
        ("Kas-a-barh/An Dro", vec!["kas", "a", "barh", "an", "dro"]),
        (
            "Kas a barh (A. Pennec)",
            vec!["kas", "a", "barh", "a", "pennec"],
        ),
    ];

    for (input, expected) in tests {
        let expected: HashSet<String> = expected.iter().map(|x| String::from(*x)).collect();
        let result: HashSet<String> = tokenize(input).into_iter().collect();

        let ok = expected.is_subset(&result);
        if !ok {
            println!("Input: {} => {}", input, ok);
            println!("Expected: {:?}", expected);
            println!("  Result: {:?}", result);
            println!(" Missing: {:?}", expected.difference(&result));
            assert!(ok);
        }
    }
}

#[test]
fn token_list_keeps_order_and_repeats() {
    let tokens = token_list("Ab c");
    // Whitespace pieces of the lower-cased text and of its transliteration, then the same
    // pieces split at non-alphanumerics, non-alphabetics and non-numerics in turn.
    assert_eq!(&tokens[..4], &["ab", "c", "ab", "c"]);
    // Splitting at what isn't numeric leaves only empty pieces of a text with no digits.
    // Sixteen pieces hold letters; each "ab" then splits into three empty pieces, each "c" into two.
    assert_eq!(tokens.len(), 16 + 8 * 3 + 8 * 2);
    assert!(tokens[..16].iter().all(|t| t == "ab" || t == "c"));
    assert!(tokens[16..].iter().all(|t| t.is_empty()));
}

#[test]
fn tokenize_drops_empty_tokens() {
    let result = tokenize("  A--B  ");
    assert!(!result.iter().any(|t| t.is_empty()));
    assert_eq!(result, vec!["a--b".to_string(), "a".to_string(), "b".to_string()]);
}

#[test]
fn tokenize_transliterates() {
    let result = tokenize("Montréal");
    assert!(result.iter().any(|t| t == "montréal"));
    assert!(result.iter().any(|t| t == "montreal"));
    // Each token once.
    let unique: HashSet<&String> = result.iter().collect();
    assert_eq!(unique.len(), result.len());
}
