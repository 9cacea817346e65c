//! Tests of query parameters, roll-up, paging, routing, staves and drawings.

use abctool::search::{parse_generator, parse_u8_list, GeneratorChoice};
use abctool::search::parse_filter;
use abctool::relations::Clusters;
use abctool::representations::abc_to_ast;
use abctool::search::{
    page_bounds, parse_bool, parse_selection, prelude_titles, rollup, Filter, DEFAULT_ROWS,
    MAX_ROWS,
};
use abctool::server::{first_group, first_group_id, route, Route};
use abctool::svg::Drawing;
use abctool::typeset::{stave_glyphs, Glyph};
use abctool::viz::Visualisation;
use abctool::typeset::Typesetting;

fn params(v: &[(&str, &str)]) -> Vec<(String, String)> {
    v.iter().map(|(a, b)| (a.to_string(), b.to_string())).collect()
}

#[test]
fn bool_params_and_defaults() {
    assert_eq!(parse_bool(&params(&[("rollup", "on")]), "rollup", false), Ok(true));
    assert_eq!(parse_bool(&params(&[("rollup", "true")]), "rollup", false), Ok(true));
    assert_eq!(parse_bool(&params(&[("rollup", "off")]), "rollup", true), Ok(false));
    assert_eq!(parse_bool(&params(&[("rollup", "false")]), "rollup", true), Ok(false));
    assert_eq!(parse_bool(&params(&[]), "rollup", true), Ok(true));
    assert_eq!(parse_bool(&params(&[("facet", "on")]), "rollup", false), Ok(false));
    assert_eq!(
        parse_bool(&params(&[("rollup", "yes")]), "rollup", true),
        Err("Invalid value for 'rollup'".to_string())
    );
    // The last value given counts.
    assert_eq!(
        parse_bool(&params(&[("rollup", "on"), ("rollup", "off")]), "rollup", true),
        Ok(false)
    );
}

#[test]
fn selection_defaults() {
    let s = parse_selection(&params(&[])).unwrap();
    assert_eq!((s.offset, s.rows, s.rollup, s.facet), (0, DEFAULT_ROWS, true, true));
    let s = parse_selection(&params(&[("offset", "20"), ("rows", "5"), ("facet", "off")])).unwrap();
    assert_eq!((s.offset, s.rows, s.rollup, s.facet), (20, 5, true, false));
    let s = parse_selection(&params(&[("rows", "1000")])).unwrap();
    assert_eq!(s.rows, MAX_ROWS);
}

#[test]
fn selection_errors() {
    assert_eq!(
        parse_selection(&params(&[("offset", "x")])).err(),
        Some("Invalid value for 'offset'.".to_string())
    );
    assert_eq!(
        parse_selection(&params(&[("rows", "-1")])).err(),
        Some("Invalid value for 'rows'".to_string())
    );
    assert_eq!(
        parse_selection(&params(&[("rows", "1001")])).err(),
        Some("Too many rows requested".to_string())
    );
    assert_eq!(
        parse_selection(&params(&[("rollup", "maybe")])).err(),
        Some("Invalid value for 'rollup'".to_string())
    );
    assert_eq!(
        parse_selection(&params(&[("facet", "")])).err(),
        Some("Invalid value for 'facet'".to_string())
    );
}

#[test]
fn rollup_keeps_first_of_each_group() {
    let mut clusters = Clusters::with_max_id(10);
    clusters.add(1, 2);
    clusters.add(3, 4);
    let keep = rollup(&vec![2, 5, 1, 4, 3, 6, 2], &clusters);
    assert_eq!(keep, vec![true, true, false, true, false, true, false]);
    assert!(rollup(&vec![], &clusters).is_empty());
    // Tunes beyond the clusters are in no group.
    assert_eq!(rollup(&vec![50, 50], &clusters), vec![true, true]);
}

#[test]
fn page_bounds_cut_to_the_results() {
    assert_eq!(page_bounds(0, 30, 100), (0, 30));
    assert_eq!(page_bounds(90, 30, 100), (90, 100));
    assert_eq!(page_bounds(150, 30, 100), (100, 100));
    assert_eq!(page_bounds(0, 0, 0), (0, 0));
}

#[test]
fn filters() {
    assert!(!Filter { features: vec![] }.has_filters());
    assert!(Filter { features: params(&[("key", "G")]) }.has_filters());
}

#[test]
fn titles_from_the_prelude() {
    let tune = abc_to_ast(&"X:1\nT:First\nT:Second\nK:G\nT:Part B\nAB".to_string());
    assert_eq!(prelude_titles(&tune), vec!["First".to_string(), "Second".to_string()]);
    let tune = abc_to_ast(&"AB".to_string());
    assert!(prelude_titles(&tune).is_empty());
}

#[test]
fn routes() {
    assert!(matches!(route("/api/v3/tunes/123.abc"), Route::ApiAbc(Some(123))));
    assert!(matches!(route("/api/v3/tunes/99999999999.abc"), Route::ApiAbc(None)));
    assert!(matches!(route("/api/v3/tunes/7.svg"), Route::ApiSvg(Some(7))));
    assert!(matches!(route("/api/v3/tunes"), Route::ApiTunes));
    assert!(matches!(route("/api/v3/tunes?q=x"), Route::ApiTunes));
    assert!(matches!(route("/api/v3/features"), Route::ApiFeatures));
    assert!(matches!(route("/tunes?q=x"), Route::HtmlTunes));
    assert!(matches!(route("/"), Route::HtmlHome));
    assert!(matches!(route("/about"), Route::HtmlPage(Some(ref p)) if p == "about"));
    assert!(matches!(route(""), Route::NotFound));
}

#[test]
fn staves_of_a_tune() {
    let tune = abc_to_ast(&"K:C\nC|D||E".to_string());
    let staves = stave_glyphs(&tune);
    assert!(staves.iter().all(|s| matches!(s[0], Glyph::Clef(_))));
    let glyphs: Vec<Glyph> = staves.concat();
    let positions: Vec<i32> = glyphs
        .iter()
        .filter_map(|g| match g {
            Glyph::NoteHead(p, _) => Some(*p),
            _ => None,
        })
        .collect();
    assert_eq!(positions, vec![-2, -1, 0]);
    assert!(glyphs.contains(&Glyph::SingleBar));
    assert!(glyphs.contains(&Glyph::DoubleBar));
    assert!(Glyph::SingleBar.is_front_matter() && Glyph::SingleBar.is_end_matter());
    assert!(!Glyph::BeamBreak.is_front_matter() && !Glyph::BeamBreak.is_end_matter());
    assert!(!Glyph::NoteHead(0, None).is_front_matter());
}

#[test]
fn empty_drawing_renders() {
    assert_eq!(
        Drawing::new().render(),
        "<svg version='1.1' baseProfile='full' width='0' height='0' xmlns='http://www.w3.org/2000/svg'></svg>"
    );
    let _ = Visualisation::new();
    let _ = Typesetting::new();
}

#[test]
fn generators_from_params() {
    assert!(matches!(parse_generator(&params(&[])), Ok(GeneratorChoice::All)));
    assert!(matches!(
        parse_generator(&params(&[("title", "Road"), ("interval_ngram", "1,2")])),
        Ok(GeneratorChoice::Title(ref t)) if t == "Road"
    ));
    // An empty title gives way to the melody.
    assert!(matches!(
        parse_generator(&params(&[("title", ""), ("interval_ngram", "60,62,64")])),
        Ok(GeneratorChoice::IntervalNGram(ref v)) if *v == vec![60, 62, 64]
    ));
    assert!(matches!(
        parse_generator(&params(&[("degree_ngram", "+1,2")])),
        Ok(GeneratorChoice::DegreeNGram(ref v)) if *v == vec![1, 2]
    ));
    assert_eq!(
        parse_generator(&params(&[("interval_ngram", "60,,64")])).err(),
        Some("Invalid value given for 'interval_ngram'".to_string())
    );
    assert_eq!(
        parse_generator(&params(&[("degree_ngram", "256")])).err(),
        Some("Invalid value given for 'degree_ngram'".to_string())
    );
    assert!(matches!(
        parse_generator(&params(&[("interval_histogram", "0.5")])),
        Ok(GeneratorChoice::IntervalHistogram(ref t)) if t == "0.5"
    ));
    assert!(matches!(
        parse_generator(&params(&[("degree_histogram", "x")])),
        Ok(GeneratorChoice::DegreeHistogram(ref t)) if t == "x"
    ));
    assert_eq!(parse_u8_list(&"7".to_string()), Some(vec![7]));
    assert_eq!(parse_u8_list(&"".to_string()), None);
    assert_eq!(parse_u8_list(&"1,2,".to_string()), None);
}

#[test]
fn filter_keeps_known_feature_types() {
    let known: Vec<(String, Vec<String>)> = vec![
        ("key".to_string(), vec!["G".to_string()]),
        ("mode".to_string(), vec!["Major".to_string()]),
    ];
    let filter = parse_filter(
        &params(&[("key", "G"), ("rows", "5"), ("mode", "Minor"), ("key", "D")]),
        &known,
    );
    assert_eq!(filter.features, params(&[("key", "G"), ("mode", "Minor"), ("key", "D")]));
    assert!(!parse_filter(&params(&[("q", "x")]), &known).has_filters());
}

#[test]
fn first_capture_group_gives_the_tune_id() {
    let c = vec![Some("/api/v3/tunes/42.abc".to_string()), Some("42".to_string())];
    assert_eq!(first_group_id(&c), Some(42));
    assert_eq!(first_group(&c), Some("42".to_string()));
    let too_big = vec![Some("x".to_string()), Some("99999999999".to_string())];
    assert_eq!(first_group_id(&too_big), None);
    let none = vec![Some("x".to_string()), None];
    assert_eq!(first_group_id(&none), None);
    assert_eq!(first_group_id(&vec![Some("x".to_string())]), None);
}
