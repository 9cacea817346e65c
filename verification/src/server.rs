//! Which endpoint of the search server a request path is for.

use vstd::prelude::*;
use crate::chars::{parse_u32, parsed_u32, string_to_chars};

verus! {

/// What matching a pattern against a text gives, as `regex::Regex::new` and then
/// `regex::Regex::captures` do: none where the pattern is invalid or does not match, else the
/// text of each capture group, the whole match first, a group that took no part being none.
pub uninterp spec fn regex_captures(pattern: Seq<char>, text: Seq<char>) -> Option<
    Seq<Option<Seq<char>>>,
>;

/// Capture groups as character sequences.
pub open spec fn captured(r: Option<Vec<Option<String>>>) -> Option<Seq<Option<Seq<char>>>> {
    match r {
        None => None,
        Some(v) => Some(
            v@.map_values(
                |g: Option<String>|
                    match g {
                        None => None,
                        Some(s) => Some(s@),
                    },
            ),
        ),
    }
}

/// Compiles a pattern with `regex::Regex::new` and matches it against a text with
/// `regex::Regex::captures`; what that gives is left to the name `regex_captures`.
#[verifier::external_body]
fn captures(pattern: &str, text: &str) -> (r: Option<Vec<Option<String>>>)
    ensures
        captured(r) == regex_captures(pattern@, text@),
{
    let re = regex::Regex::new(pattern).ok()?;
    let caps = re.captures(text)?;
    Some(caps.iter().map(|m| m.map(|m| m.as_str().to_string())).collect())
}

/// The endpoints of the server.
pub enum Route {
    /// The ABC of a tune, by its ID where the ID is a number.
    ApiAbc(Option<u32>),
    /// The SVG of a tune, by its ID where the ID is a number.
    ApiSvg(Option<u32>),
    ApiTunes,
    ApiFeatures,
    HtmlTunes,
    HtmlHome,
    /// A page from a template, by its name.
    HtmlPage(Option<String>),
    NotFound,
}

/// A route as values.
pub enum RouteView {
    ApiAbc(Option<u32>),
    ApiSvg(Option<u32>),
    ApiTunes,
    ApiFeatures,
    HtmlTunes,
    HtmlHome,
    HtmlPage(Option<Seq<char>>),
    NotFound,
}

/// A route as values.
pub open spec fn route_view(r: Route) -> RouteView {
    match r {
        Route::ApiAbc(id) => RouteView::ApiAbc(id),
        Route::ApiSvg(id) => RouteView::ApiSvg(id),
        Route::ApiTunes => RouteView::ApiTunes,
        Route::ApiFeatures => RouteView::ApiFeatures,
        Route::HtmlTunes => RouteView::HtmlTunes,
        Route::HtmlHome => RouteView::HtmlHome,
        Route::HtmlPage(name) => RouteView::HtmlPage(
            match name {
                None => None,
                Some(s) => Some(s@),
            },
        ),
        Route::NotFound => RouteView::NotFound,
    }
}

/// The first capture group of a match, if it took part.
pub open spec fn group_one(c: Seq<Option<Seq<char>>>) -> Option<Seq<char>> {
    if c.len() > 1 {
        c[1]
    } else {
        None
    }
}

/// The tune ID in the first capture group of a match.
pub open spec fn group_id(c: Seq<Option<Seq<char>>>) -> Option<u32> {
    match group_one(c) {
        Some(g) => parsed_u32(g),
        None => None,
    }
}

/// The endpoint for a request path: the first pattern, in order, that matches it.
pub open spec fn route_of(url: Seq<char>) -> RouteView {
    if let Some(c) = regex_captures("^/api/v3/tunes/(\\d+).abc$"@, url) {
        RouteView::ApiAbc(group_id(c))
    } else if let Some(c) = regex_captures("^/api/v3/tunes/(\\d+).svg$"@, url) {
        RouteView::ApiSvg(group_id(c))
    } else if regex_captures("^/api/v3/tunes(\\?.*)?$"@, url) is Some {
        RouteView::ApiTunes
    } else if regex_captures("^/api/v3/features$"@, url) is Some {
        RouteView::ApiFeatures
    } else if regex_captures("/tunes(\\?.*)?$"@, url) is Some {
        RouteView::HtmlTunes
    } else if regex_captures("^/$"@, url) is Some {
        RouteView::HtmlHome
    } else if let Some(c) = regex_captures("^/(.+)$"@, url) {
        RouteView::HtmlPage(group_one(c))
    } else {
        RouteView::NotFound
    }
}

/// The first capture group of a match, if it took part.
pub fn first_group(c: &Vec<Option<String>>) -> (r: Option<String>)
    ensures
        (match r {
            None => None,
            Some(s) => Some(s@),
        }) == group_one(captured(Some(*c))->0),
{
    if c.len() > 1 {
        match &c[1] {
            Some(s) => Some(s.clone()),
            None => None,
        }
    } else {
        None
    }
}

/// The tune ID in the first capture group of a match.
pub fn first_group_id(c: &Vec<Option<String>>) -> (r: Option<u32>)
    ensures
        r == group_id(captured(Some(*c))->0),
{
    match first_group(c) {
        Some(s) => {
            let chars = string_to_chars(s.as_str());
            parse_u32(chars.as_slice())
        },
        None => None,
    }
}

/// The endpoint for a request path.
pub fn route(url: &str) -> (r: Route)
    ensures
        route_view(r) == route_of(url@),
{
    if let Some(c) = captures("^/api/v3/tunes/(\\d+).abc$", url) {
        Route::ApiAbc(first_group_id(&c))
    } else if let Some(c) = captures("^/api/v3/tunes/(\\d+).svg$", url) {
        Route::ApiSvg(first_group_id(&c))
    } else if captures("^/api/v3/tunes(\\?.*)?$", url).is_some() {
        Route::ApiTunes
    } else if captures("^/api/v3/features$", url).is_some() {
        Route::ApiFeatures
    } else if captures("/tunes(\\?.*)?$", url).is_some() {
        Route::HtmlTunes
    } else if captures("^/$", url).is_some() {
        Route::HtmlHome
    } else if let Some(c) = captures("^/(.+)$", url) {
        Route::HtmlPage(first_group(&c))
    } else {
        Route::NotFound
    }
}

} // verus!
