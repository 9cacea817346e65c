//! The parts of a search that are decided on integers and text: reading the selection from the
//! query parameters, rolling results up by cluster, cutting out a page, and finding titles.

use vstd::prelude::*;
use crate::abc_lexer::{T, TextField, TokenView, token_views};
use crate::chars::{parse_u32, parse_usize, parsed_u32, parsed_usize, push_str, string_to_chars};
use crate::relations::{Clusters, group_of};
use crate::tune_ast_three::Tune;
use std::collections::HashSet;

verus! {

/// Number of rows returned when none are asked for.
pub const DEFAULT_ROWS: usize = 30;

/// The most rows that can be asked for.
pub const MAX_ROWS: usize = 1000;

/// A filter selects items in the result set. All terms are ANDed.
pub struct Filter {
    pub features: Vec<(String, String)>,
}

impl Filter {
    pub fn has_filters(&self) -> (r: bool)
        ensures
            r == (self.features@.len() > 0),
    {
        self.features.len() > 0
    }
}

/// Which results to return.
pub struct Selection {
    // Start at this index of the results.
    pub offset: usize,
    // Return only this many rows.
    pub rows: usize,
    // Roll-up tunes based on their cluster.
    // When true, return only the best tune per group.
    pub rollup: bool,
    // Include facets for all features.
    pub facet: bool,
}

/// Options for which features to enable in the search engine. We don't always want all of them.
pub struct SearchEngineFeatures {
    pub index_text: bool,
    pub index_melody_interval_term: bool,
    pub index_features: bool,
}

/// Query parameters as pairs of character sequences.
pub open spec fn param_views(params: Seq<(String, String)>) -> Seq<(Seq<char>, Seq<char>)> {
    params.map_values(|p: (String, String)| (p.0@, p.1@))
}

/// The value of a parameter: the last one given under its name.
pub open spec fn param_value(params: Seq<(Seq<char>, Seq<char>)>, name: Seq<char>) -> Option<
    Seq<char>,
>
    decreases params.len(),
{
    if params.len() == 0 {
        None
    } else if params.last().0 == name {
        Some(params.last().1)
    } else {
        param_value(params.drop_last(), name)
    }
}

/// A result with a `String` error as values.
pub open spec fn result_view<V>(r: Result<V, String>) -> Result<V, Seq<char>> {
    match r {
        Ok(v) => Ok(v),
        Err(e) => Err(e@),
    }
}

/// The value of a boolean parameter: `true` or `on`, `false` or `off` (HTML forms use on/off,
/// the API true/false), or the default where it is not given.
pub open spec fn bool_param(params: Seq<(Seq<char>, Seq<char>)>, name: Seq<char>, default: bool) -> Result<
    bool,
    Seq<char>,
> {
    match param_value(params, name) {
        None => Ok(default),
        Some(v) => if v == "true"@ || v == "on"@ {
            Ok(true)
        } else if v == "false"@ || v == "off"@ {
            Ok(false)
        } else {
            Err("Invalid value for '"@ + name + "'"@)
        },
    }
}

/// The selection that parameters ask for: `offset` (default 0), `rows` (default 30, at most
/// 1000), `rollup` and `facet` (each default true), or the first error in that order.
pub open spec fn selection_of(params: Seq<(Seq<char>, Seq<char>)>) -> Result<
    (usize, usize, bool, bool),
    Seq<char>,
> {
    let offset = match param_value(params, "offset"@) {
        None => Ok(0usize),
        Some(v) => match parsed_usize(v) {
            Some(n) => Ok(n),
            None => Err("Invalid value for 'offset'."@),
        },
    };
    let rows = match param_value(params, "rows"@) {
        None => Ok(DEFAULT_ROWS),
        Some(v) => match parsed_usize(v) {
            Some(n) => if n <= MAX_ROWS {
                Ok(n)
            } else {
                Err("Too many rows requested"@)
            },
            None => Err("Invalid value for 'rows'"@),
        },
    };
    match offset {
        Err(e) => Err(e),
        Ok(offset) => match rows {
            Err(e) => Err(e),
            Ok(rows) => match bool_param(params, "rollup"@, true) {
                Err(e) => Err(e),
                Ok(rollup) => match bool_param(params, "facet"@, true) {
                    Err(e) => Err(e),
                    Ok(facet) => Ok((offset, rows, rollup, facet)),
                },
            },
        },
    }
}

/// A selection as values.
pub open spec fn selection_view(r: Result<Selection, String>) -> Result<
    (usize, usize, bool, bool),
    Seq<char>,
> {
    match r {
        Ok(s) => Ok((s.offset, s.rows, s.rollup, s.facet)),
        Err(e) => Err(e@),
    }
}

/// Whether two strings hold the same text.
fn same_text(a: &String, b: &str) -> (r: bool)
    ensures
        r == (a@ == b@),
{
    let owned = b.to_owned();
    *a == owned
}

/// The value of a parameter: the last one given under its name.
fn lookup_param<'a>(params: &'a Vec<(String, String)>, name: &str) -> (r: Option<&'a String>)
    ensures
        match r {
            Some(v) => param_value(param_views(params@), name@) == Some(v@),
            None => param_value(param_views(params@), name@) is None,
        },
{
    let ghost ps = param_views(params@);
    let mut k: usize = params.len();
    assert(ps.take(ps.len() as int) =~= ps);
    while k > 0
        invariant
            k <= params@.len(),
            ps == param_views(params@),
            param_value(ps.take(k as int), name@) == param_value(ps, name@),
        decreases k,
    {
        let ghost front = ps.take(k as int);
        assert(front.drop_last() =~= ps.take(k - 1));
        assert(front.last() == (params@[k - 1].0@, params@[k - 1].1@));
        if same_text(&params[k - 1].0, name) {
            return Some(&params[k - 1].1);
        }
        k -= 1;
    }
    assert(ps.take(0) =~= Seq::<(Seq<char>, Seq<char>)>::empty());
    None
}

/// The message for an invalid boolean parameter.
fn invalid_value_message(param_name: &str) -> (r: String)
    ensures
        r@ == "Invalid value for '"@ + param_name@ + "'"@,
{
    let mut message = String::new();
    push_str(&mut message, "Invalid value for '");
    push_str(&mut message, param_name);
    push_str(&mut message, "'");
    assert(message@ =~= "Invalid value for '"@ + param_name@ + "'"@);
    message
}

/// Read a boolean parameter: `true` or `on`, `false` or `off`, or the default where it is not
/// given.
pub fn parse_bool(params: &Vec<(String, String)>, param_name: &str, default: bool) -> (r: Result<
    bool,
    String,
>)
    ensures
        result_view(r) == bool_param(param_views(params@), param_name@, default),
{
    match lookup_param(params, param_name) {
        Some(val) => {
            if same_text(val, "true") || same_text(val, "on") {
                Ok(true)
            } else if same_text(val, "false") || same_text(val, "off") {
                Ok(false)
            } else {
                Err(invalid_value_message(param_name))
            }
        },
        None => Ok(default),
    }
}

/// Read a number parameter as `str::parse::<usize>` does.
fn parse_usize_text(v: &String) -> (r: Option<usize>)
    ensures
        r == parsed_usize(v@),
{
    let chars = string_to_chars(v.as_str());
    parse_usize(chars.as_slice())
}

/// Read the selection from the parameters: `offset` (default 0), `rows` (default 30, at most
/// 1000), `rollup` and `facet` (each default true).
pub fn parse_selection(params: &Vec<(String, String)>) -> (r: Result<Selection, String>)
    ensures
        selection_view(r) == selection_of(param_views(params@)),
        r matches Ok(s) ==> s.rows <= MAX_ROWS,
{
    let offset: usize = match lookup_param(params, "offset") {
        Some(v) => match parse_usize_text(v) {
            Some(v) => v,
            None => return Err("Invalid value for 'offset'.".to_owned()),
        },
        None => 0,
    };
    let rows: usize = match lookup_param(params, "rows") {
        Some(v) => match parse_usize_text(v) {
            Some(v) => {
                if v <= MAX_ROWS {
                    v
                } else {
                    return Err("Too many rows requested".to_owned());
                }
            },
            None => return Err("Invalid value for 'rows'".to_owned()),
        },
        None => DEFAULT_ROWS,
    };
    let rollup = match parse_bool(params, "rollup", true) {
        Ok(val) => val,
        Err(x) => return Err(x),
    };
    let facet = match parse_bool(params, "facet", true) {
        Ok(val) => val,
        Err(x) => return Err(x),
    };
    Ok(Selection { offset, rows, rollup, facet })
}

/// Whether the result at position `k` is the first of its group, or in no group.
pub open spec fn first_of_group(g: Seq<usize>, ids: Seq<usize>, k: int) -> bool {
    match group_of(g, ids[k] as int) {
        None => true,
        Some(c) => forall|j: int| 0 <= j < k ==> group_of(g, ids[j] as int) != Some(c),
    }
}

/// For results in order, best first, which to keep when rolling up by cluster: each result in
/// no group, and the first result of each group.
pub fn rollup(ids: &Vec<usize>, clusters: &Clusters) -> (r: Vec<bool>)
    ensures
        r@.len() == ids@.len(),
        forall|k: int| 0 <= k < ids@.len() ==> r@[k] == first_of_group(clusters@, ids@, k),
        // No two results of one group are both kept...
        forall|j: int, k: int|
            0 <= j < k < ids@.len() && r@[j] && r@[k] && group_of(clusters@, ids@[j] as int) is Some
                ==> group_of(clusters@, ids@[j] as int) != group_of(clusters@, ids@[k] as int),
        // ...and each group among the results keeps one, no later than any of its others.
        forall|k: int|
            0 <= k < ids@.len() ==> exists|j: int|
                0 <= j <= k && #[trigger] r@[j] && group_of(clusters@, ids@[j] as int) == group_of(
                    clusters@,
                    #[trigger] ids@[k] as int,
                ),
{
    broadcast use vstd::std_specs::hash::group_hash_axioms;

    let mut seen: HashSet<usize> = HashSet::new();
    let mut keep: Vec<bool> = Vec::new();
    let mut k: usize = 0;
    while k < ids.len()
        invariant
            k <= ids@.len(),
            keep@.len() == k,
            forall|j: int| 0 <= j < k ==> keep@[j] == first_of_group(clusters@, ids@, j),
            forall|c: usize|
                #[trigger] seen@.contains(c) <==> exists|j: int|
                    0 <= j < k && group_of(clusters@, ids@[j] as int) == Some(c),
        decreases ids@.len() - k,
    {
        match clusters.get(ids[k]) {
            // If it's not in a group, keep it as normal.
            None => {
                keep.push(true);
            },
            Some(group_id) => {
                if !seen.contains(&group_id) {
                    seen.insert(group_id);
                    keep.push(true);
                } else {
                    keep.push(false);
                }
            },
        }
        proof {
            assert forall|c: usize| #[trigger] seen@.contains(c) <==> exists|j: int|
                0 <= j < k + 1 && group_of(clusters@, ids@[j] as int) == Some(c) by {
                if group_of(clusters@, ids@[k as int] as int) == Some(c) {
                    assert(0 <= k < k + 1 && group_of(clusters@, ids@[k as int] as int) == Some(c));
                }
            }
        }
        k += 1;
    }
    proof {
        let g = clusters@;
        assert forall|k: int| 0 <= k < ids@.len() implies exists|j: int|
            0 <= j <= k && #[trigger] keep@[j] && group_of(g, ids@[j] as int) == group_of(
                g,
                #[trigger] ids@[k] as int,
            ) by {
            if keep@[k] {
            } else {
                // The earliest result of the group is kept.
                let c = group_of(g, ids@[k] as int)->0;
                let j = choose|j: int| 0 <= j < k && group_of(g, ids@[j] as int) == Some(c);
                lemma_first_of_group_exists(g, ids@, j, c);
                let i = choose|i: int|
                    0 <= i <= j && group_of(g, ids@[i] as int) == Some(c) && first_of_group(g, ids@, i);
                assert(keep@[i]);
            }
        }
    }
    keep
}

/// Among results up to `k` in group `c`, the earliest is the first of its group.
proof fn lemma_first_of_group_exists(g: Seq<usize>, ids: Seq<usize>, k: int, c: usize)
    requires
        0 <= k < ids.len(),
        group_of(g, ids[k] as int) == Some(c),
    ensures
        exists|i: int| 0 <= i <= k && group_of(g, ids[i] as int) == Some(c) && first_of_group(g, ids, i),
    decreases k,
{
    if !first_of_group(g, ids, k) {
        let j = choose|j: int| 0 <= j < k && group_of(g, ids[j] as int) == Some(c);
        lemma_first_of_group_exists(g, ids, j, c);
    }
}

/// The page of `n` results that a selection asks for: from `offset` to `offset + rows`, each
/// cut to `n`.
pub fn page_bounds(offset: usize, rows: usize, n: usize) -> (r: (usize, usize))
    requires
        offset + rows <= usize::MAX,
    ensures
        r.0 == (if offset < n {
            offset
        } else {
            n
        }),
        r.1 == (if offset + rows < n {
            offset + rows
        } else {
            n as int
        }),
        // The page lies within the results and holds no more than the rows asked for.
        r.0 <= r.1 <= n,
        r.1 - r.0 <= rows,
{
    let lower = if offset < n {
        offset
    } else {
        n
    };
    let upper = if offset + rows < n {
        offset + rows
    } else {
        n
    };
    (lower, upper)
}

/// The titles among the tokens, in order.
pub open spec fn titles_of(ts: Seq<TokenView>) -> Seq<Seq<char>>
    decreases ts.len(),
{
    if ts.len() == 0 {
        seq![]
    } else {
        titles_of(ts.drop_last()) + match ts.last() {
            TokenView::Text(TextField::Title, t) => seq![t],
            _ => seq![],
        }
    }
}

/// The titles in the prelude of a tune, in order.
pub fn prelude_titles(ast: &Tune) -> (r: Vec<String>)
    ensures
        r@.map_values(|s: String| s@) == titles_of(ast@.prelude),
{
    let ghost ts = ast@.prelude;
    let mut titles: Vec<String> = Vec::new();
    let mut k: usize = 0;
    assert(ts.take(0) =~= Seq::<TokenView>::empty());
    while k < ast.prelude.len()
        invariant
            ts == token_views(ast.prelude@),
            k <= ts.len(),
            titles@.map_values(|s: String| s@) == titles_of(ts.take(k as int)),
        decreases ts.len() - k,
    {
        let ghost before = titles@;
        match &ast.prelude[k] {
            T::Title(x) => {
                titles.push(x.clone());
            },
            _ => {},
        }
        assert(ts.take(k + 1).drop_last() =~= ts.take(k as int));
        assert(ts[k as int] == ast.prelude@[k as int]@);
        k += 1;
        assert(titles@.map_values(|s: String| s@) =~= titles_of(ts.take(k as int)));
    }
    assert(ts.take(ts.len() as int) =~= ts);
    titles
}

/// What a search generates its weighted results from, as read from the parameters. The
/// histograms' numbers are read where the search runs.
pub enum GeneratorChoice {
    /// All tunes.
    All,
    /// Title text.
    Title(String),
    /// A melody, as pitches, for interval n-grams.
    IntervalNGram(Vec<u8>),
    /// A melody, as pitches, for degree n-grams.
    DegreeNGram(Vec<u8>),
    /// The text of an interval histogram.
    IntervalHistogram(String),
    /// The text of a degree histogram.
    DegreeHistogram(String),
}

/// A generator choice as values.
pub enum GeneratorView {
    All,
    Title(Seq<char>),
    IntervalNGram(Seq<u8>),
    DegreeNGram(Seq<u8>),
    IntervalHistogram(Seq<char>),
    DegreeHistogram(Seq<char>),
}

/// A generator choice, or its error, as values.
pub open spec fn generator_view(r: Result<GeneratorChoice, String>) -> Result<GeneratorView, Seq<char>> {
    match r {
        Ok(GeneratorChoice::All) => Ok(GeneratorView::All),
        Ok(GeneratorChoice::Title(t)) => Ok(GeneratorView::Title(t@)),
        Ok(GeneratorChoice::IntervalNGram(v)) => Ok(GeneratorView::IntervalNGram(v@)),
        Ok(GeneratorChoice::DegreeNGram(v)) => Ok(GeneratorView::DegreeNGram(v@)),
        Ok(GeneratorChoice::IntervalHistogram(t)) => Ok(GeneratorView::IntervalHistogram(t@)),
        Ok(GeneratorChoice::DegreeHistogram(t)) => Ok(GeneratorView::DegreeHistogram(t@)),
        Err(e) => Err(e@),
    }
}

/// The pieces of a text between commas, empty ones included, as `str::split(",")` gives
/// them: one more piece than commas.
pub open spec fn comma_pieces(s: Seq<char>) -> Seq<Seq<char>>
    decreases s.len(),
{
    if s.len() == 0 {
        seq![seq![]]
    } else {
        let front = comma_pieces(s.drop_last());
        if s.last() == ',' {
            front.push(seq![])
        } else {
            front.update(front.len() - 1, front.last().push(s.last()))
        }
    }
}

proof fn lemma_comma_pieces_nonempty(s: Seq<char>)
    ensures
        comma_pieces(s).len() >= 1,
    decreases s.len(),
{
    if s.len() > 0 {
        lemma_comma_pieces_nonempty(s.drop_last());
    }
}

/// What `str::parse::<u8>` accepts: an optional `+`, then decimal digits whose value fits a
/// byte.
pub open spec fn parsed_u8(s: Seq<char>) -> Option<u8> {
    match parsed_u32(s) {
        Some(v) => if v <= 255 {
            Some(v as u8)
        } else {
            None
        },
        None => None,
    }
}

/// A comma-separated list of bytes, where every piece is one.
pub open spec fn parsed_u8_list(s: Seq<char>) -> Option<Seq<u8>> {
    let pieces = comma_pieces(s);
    if forall|k: int| 0 <= k < pieces.len() ==> (#[trigger] parsed_u8(pieces[k])) is Some {
        Some(Seq::new(pieces.len(), |k: int| parsed_u8(pieces[k])->0))
    } else {
        None
    }
}

/// The generator that parameters ask for: a non-empty `title`, else an `interval_ngram`, a
/// `degree_ngram`, an `interval_histogram` or a `degree_histogram`, the first given in that
/// order, else all tunes. An n-gram must be a comma-separated list of bytes.
pub open spec fn generator_of(params: Seq<(Seq<char>, Seq<char>)>) -> Result<GeneratorView, Seq<char>> {
    if param_value(params, "title"@) is Some && param_value(params, "title"@)->0.len() > 0 {
        Ok(GeneratorView::Title(param_value(params, "title"@)->0))
    } else if param_value(params, "interval_ngram"@) is Some {
        match parsed_u8_list(param_value(params, "interval_ngram"@)->0) {
            Some(v) => Ok(GeneratorView::IntervalNGram(v)),
            None => Err("Invalid value given for 'interval_ngram'"@),
        }
    } else if param_value(params, "degree_ngram"@) is Some {
        match parsed_u8_list(param_value(params, "degree_ngram"@)->0) {
            Some(v) => Ok(GeneratorView::DegreeNGram(v)),
            None => Err("Invalid value given for 'degree_ngram'"@),
        }
    } else if param_value(params, "interval_histogram"@) is Some {
        Ok(GeneratorView::IntervalHistogram(param_value(params, "interval_histogram"@)->0))
    } else if param_value(params, "degree_histogram"@) is Some {
        Ok(GeneratorView::DegreeHistogram(param_value(params, "degree_histogram"@)->0))
    } else {
        Ok(GeneratorView::All)
    }
}

/// Read a number as `str::parse::<u8>` does.
fn parse_u8(s: &[char]) -> (r: Option<u8>)
    ensures
        r == parsed_u8(s@),
{
    match parse_u32(s) {
        Some(v) => if v <= 255 {
            Some(v as u8)
        } else {
            None
        },
        None => None,
    }
}

/// Read a comma-separated list of bytes.
pub fn parse_u8_list(text: &String) -> (r: Option<Vec<u8>>)
    ensures
        match r {
            Some(v) => parsed_u8_list(text@) == Some(v@),
            None => parsed_u8_list(text@) is None,
        },
{
    let s = string_to_chars(text.as_str());
    let ghost pieces = comma_pieces(s@);
    // Split at the commas.
    let mut done: Vec<Vec<char>> = Vec::new();
    let mut current: Vec<char> = Vec::new();
    let mut k: usize = 0;
    assert(s@.take(0) =~= Seq::<char>::empty());
    while k < s.len()
        invariant
            k <= s@.len(),
            done@.map_values(|p: Vec<char>| p@).push(current@) == comma_pieces(s@.take(k as int)),
        decreases s@.len() - k,
    {
        let c = s[k];
        let ghost before = done@.map_values(|p: Vec<char>| p@).push(current@);
        proof {
            assert(s@.take(k + 1).drop_last() =~= s@.take(k as int));
            lemma_comma_pieces_nonempty(s@.take(k as int));
        }
        if c == ',' {
            let finished = current;
            done.push(finished);
            current = Vec::new();
            assert(done@.map_values(|p: Vec<char>| p@).push(current@) =~= before.push(seq![]));
        } else {
            current.push(c);
            assert(done@.map_values(|p: Vec<char>| p@).push(current@) =~= before.update(
                before.len() - 1,
                before.last().push(c),
            ));
        }
        k += 1;
    }
    assert(s@.take(s@.len() as int) =~= s@);
    let ghost front = done@.map_values(|p: Vec<char>| p@);
    done.push(current);
    assert(done@.map_values(|p: Vec<char>| p@) =~= front.push(current@));
    assert(done@.map_values(|p: Vec<char>| p@) == pieces);
    // Read each piece.
    let mut values: Vec<u8> = Vec::new();
    let mut j: usize = 0;
    while j < done.len()
        invariant
            j <= done@.len(),
            pieces == comma_pieces(text@),
            done@.len() == pieces.len(),
            forall|i: int| 0 <= i < done@.len() ==> (#[trigger] done@[i])@ == pieces[i],
            values@.len() == j,
            forall|i: int| 0 <= i < j ==> (#[trigger] parsed_u8(pieces[i])) == Some(values@[i]),
        decreases done@.len() - j,
    {
        match parse_u8(done[j].as_slice()) {
            Some(v) => values.push(v),
            None => {
                assert(parsed_u8(pieces[j as int]) is None);
                assert(!(forall|i: int| 0 <= i < pieces.len() ==> (#[trigger] parsed_u8(pieces[i])) is Some));
                return None;
            },
        }
        j += 1;
    }
    assert(values@ =~= Seq::new(pieces.len(), |i: int| parsed_u8(pieces[i])->0));
    Some(values)
}

/// The message for an invalid n-gram.
fn invalid_ngram_message(param_name: &str) -> (r: String)
    ensures
        r@ == "Invalid value given for '"@ + param_name@ + "'"@,
{
    let mut message = String::new();
    push_str(&mut message, "Invalid value given for '");
    push_str(&mut message, param_name);
    push_str(&mut message, "'");
    assert(message@ =~= "Invalid value given for '"@ + param_name@ + "'"@);
    message
}

/// Read the generator from the parameters.
pub fn parse_generator(params: &Vec<(String, String)>) -> (r: Result<GeneratorChoice, String>)
    ensures
        generator_view(r) == generator_of(param_views(params@)),
{
    proof {
        reveal_strlit("Invalid value given for 'interval_ngram'");
        reveal_strlit("Invalid value given for 'degree_ngram'");
        reveal_strlit("Invalid value given for '");
        reveal_strlit("interval_ngram");
        reveal_strlit("degree_ngram");
        reveal_strlit("'");
        assert("Invalid value given for '"@ + "interval_ngram"@ + "'"@
            =~= "Invalid value given for 'interval_ngram'"@);
        assert("Invalid value given for '"@ + "degree_ngram"@ + "'"@
            =~= "Invalid value given for 'degree_ngram'"@);
    }
    match lookup_param(params, "title") {
        Some(val) => {
            if !val.as_str().is_empty() {
                return Ok(GeneratorChoice::Title(val.clone()));
            }
        },
        None => {},
    }
    if let Some(val) = lookup_param(params, "interval_ngram") {
        return match parse_u8_list(val) {
            Some(value) => Ok(GeneratorChoice::IntervalNGram(value)),
            None => Err(invalid_ngram_message("interval_ngram")),
        };
    }
    if let Some(val) = lookup_param(params, "degree_ngram") {
        return match parse_u8_list(val) {
            Some(value) => Ok(GeneratorChoice::DegreeNGram(value)),
            None => Err(invalid_ngram_message("degree_ngram")),
        };
    }
    if let Some(val) = lookup_param(params, "interval_histogram") {
        return Ok(GeneratorChoice::IntervalHistogram(val.clone()));
    }
    if let Some(val) = lookup_param(params, "degree_histogram") {
        return Ok(GeneratorChoice::DegreeHistogram(val.clone()));
    }
    Ok(GeneratorChoice::All)
}

/// One of the groups has this feature type.
pub open spec fn is_feature_type(types: Seq<(String, Vec<String>)>, name: Seq<char>) -> bool {
    exists|i: int| 0 <= i < types.len() && (#[trigger] types[i]).0@ == name
}

/// Whether one of the groups has this feature type.
fn has_feature_type(types: &Vec<(String, Vec<String>)>, name: &String) -> (r: bool)
    ensures
        r == is_feature_type(types@, name@),
{
    let mut i: usize = 0;
    while i < types.len()
        invariant
            i <= types@.len(),
            forall|j: int| 0 <= j < i ==> (#[trigger] types@[j]).0@ != name@,
        decreases types@.len() - i,
    {
        if same_text(name, types[i].0.as_str()) {
            assert(types@[i as int].0@ == name@);
            return true;
        }
        i += 1;
    }
    false
}

/// The parameters whose names are known feature types, in order.
pub open spec fn known_params(params: Seq<(String, String)>, types: Seq<(String, Vec<String>)>) -> Seq<
    (Seq<char>, Seq<char>),
>
    decreases params.len(),
{
    if params.len() == 0 {
        seq![]
    } else {
        known_params(params.drop_last(), types) + if is_feature_type(types, params.last().0@) {
            seq![(params.last().0@, params.last().1@)]
        } else {
            seq![]
        }
    }
}

/// The filter that parameters ask for: each parameter whose name is a known feature type,
/// with its value.
pub fn parse_filter(params: &Vec<(String, String)>, feature_types: &Vec<(String, Vec<String>)>) -> (r:
    Filter)
    ensures
        param_views(r.features@) == known_params(params@, feature_types@),
{
    let mut relevant: Vec<(String, String)> = Vec::new();
    let mut k: usize = 0;
    assert(params@.take(0) =~= Seq::<(String, String)>::empty());
    while k < params.len()
        invariant
            k <= params@.len(),
            param_views(relevant@) == known_params(params@.take(k as int), feature_types@),
        decreases params@.len() - k,
    {
        let ghost before = relevant@;
        let name = &params[k].0;
        let known = has_feature_type(feature_types, name);
        if known {
            relevant.push((name.clone(), params[k].1.clone()));
        }
        proof {
            assert(params@.take(k + 1).drop_last() =~= params@.take(k as int));
            assert(param_views(relevant@) =~= known_params(params@.take(k + 1), feature_types@));
        }
        k += 1;
    }
    assert(params@.take(params@.len() as int) =~= params@);
    Filter { features: relevant }
}

} // verus!
