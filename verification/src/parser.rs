//! Parsing a Markdown document into the event stream.
//!
//! The document may open with a front-matter block: after trimming, a
//! leading line consisting of exactly `---` starts metadata text that the
//! next such line ends; the rest is the Markdown body.  The body is turned into HTML by the Markdown
//! converter and the HTML is tokenized and built into events here.

use vstd::prelude::*;
use vstd::string::StringExecFns;

use crate::builder::MarkupWarning;
use crate::builder::OutlineHeading;
use crate::builder::build_events_exec;
use crate::builder::headings_view;
use crate::builder::spec_build;
use crate::chars::chars_to_string;
use crate::chars::str_to_chars;
use crate::chars::string_from_range;
use crate::chars::spec_trim;
use crate::chars::trim_ws_vec;
use crate::chars::vec_range;
use crate::events::Event;
use crate::events::events_view;
use crate::events::is_balanced;
use crate::scan::matches_at;
use crate::scan::scan_html;
use crate::scan::spec_scan;

verus! {

/// An error from parsing a document.
#[derive(Debug, Clone, Copy, PartialEq, Eq)]
pub enum ParseError {
    /// The front matter section was encountered but could not find the
    /// ending delimiter: a `---` was found at the top of the file but the
    /// ending `---` could not be found.
    MissingFrontMatterEndDelimiter,
}

impl ParseError {
    /// A human-readable description of the error.
    pub fn message(&self) -> (r: String)
        ensures
            r@ == "front matter is missing end delimiter"@,
    {
        String::from_str("front matter is missing end delimiter")
    }
}

/// The parsed Markdown file: the flat event stream that rendering consumes.
#[derive(Debug, Clone, PartialEq, Eq)]
pub struct BodyRes {
    /// The events, a well-formed bracket sequence.
    pub events: Vec<Event>,
}

impl View for BodyRes {
    type V = Seq<crate::events::SpecEvent>;

    open spec fn view(&self) -> Seq<crate::events::SpecEvent> {
        events_view(self.events@)
    }
}

/// The result of parsing a document.
#[derive(Debug, Clone, PartialEq, Eq)]
pub struct ParseRes {
    /// The raw front-matter text between the `---` delimiter lines, or `None`
    /// when the document has no front-matter block.  Decoding it into a
    /// structured value is the caller's business.
    pub front_matter: Option<String>,
    /// An outline of the document: the text and the ids of all the headings
    /// found in the document.
    pub headings: Vec<OutlineHeading>,
    /// The parsed file, to be passed to rendering.
    pub body: BodyRes,
    /// The markup imbalances that were repaired while parsing.
    pub warnings: Vec<MarkupWarning>,
}

/// What the Markdown converter returns for a body text.  The conversion is
/// a pure function of the text: the same body always gives the same HTML.
pub uninterp spec fn md_html_of(s: Seq<char>) -> Seq<char>;

/// Relies on pulldown-cmark's `Parser::new_ext` (with every extension
/// enabled) and `html::push_html`: converts Markdown text to HTML text; the
/// result depends on the input alone.
#[verifier::external_body]
fn md_to_html(input: &str) -> (r: String)
    ensures
        r@ == md_html_of(input@),
{
    let parser = pulldown_cmark::Parser::new_ext(input, pulldown_cmark::Options::all());
    let mut html = String::new();
    pulldown_cmark::html::push_html(&mut html, parser);
    html
}

/// The state the whole body-parsing pipeline ends in: the body text is
/// converted to HTML, the HTML is cut into tokens, and the tokens are built
/// into events, outline and repairs.
pub open spec fn spec_parse_md(body: Seq<char>) -> crate::builder::BuildState {
    spec_build(spec_scan(md_html_of(body), 0))
}

/// Whether a parse result carries exactly what parsing `body` yields.
pub open spec fn parse_res_matches(res: ParseRes, body: Seq<char>) -> bool {
    let st = spec_parse_md(body);
    &&& headings_view(res.headings@) == st.headings
    &&& events_view(res.body.events@) == st.events
    &&& res.warnings@ == st.warnings
    &&& is_balanced(events_view(res.body.events@))
}

/// Parses Markdown into structured events: the document outline, the event
/// stream, and the imbalance repairs that were needed.  The event stream is
/// always a well-formed bracket sequence.
pub fn parse_md(input: &str) -> (r: (Vec<OutlineHeading>, BodyRes, Vec<MarkupWarning>))
    ensures
        ({
            let st = spec_parse_md(input@);
            &&& headings_view(r.0@) == st.headings
            &&& events_view(r.1.events@) == st.events
            &&& r.2@ == st.warnings
        }),
        is_balanced(events_view(r.1.events@)),
        forall|k: int| 0 <= k < r.0@.len() ==> 1 <= (#[trigger] r.0@[k]).level <= 6,
{
    let html = md_to_html(input);
    let hchars = str_to_chars(html.as_str());
    let toks = scan_html(&hchars);
    let (headings, events, warnings) = build_events_exec(&toks);
    (headings, BodyRes { events }, warnings)
}

/// The front-matter delimiter.
pub open spec fn dash3() -> Seq<char> {
    seq!['-', '-', '-']
}

/// Whether a line ends at position `p`: the end of the text, a line feed,
/// or a carriage return followed by a line feed.
pub open spec fn line_break_at(t: Seq<char>, p: int) -> bool {
    ||| p == t.len()
    ||| (p < t.len() && t[p] == '\n')
    ||| (p + 1 < t.len() && t[p] == '\r' && t[p + 1] == '\n')
}

/// Whether a line consisting of exactly `---` starts at position `j`.
pub open spec fn dash_line_at(t: Seq<char>, j: int) -> bool {
    &&& matches_at(t, j, dash3())
    &&& (j == 0 || t[j - 1] == '\n')
    &&& line_break_at(t, j + 3)
}

/// The first delimiter line starting at or after `from`.
pub open spec fn find_dash_line(t: Seq<char>, from: int) -> Option<int>
    decreases t.len() - from,
{
    if from < 0 || from >= t.len() {
        None
    } else if dash_line_at(t, from) {
        Some(from)
    } else {
        find_dash_line(t, from + 1)
    }
}

/// A found delimiter line is within bounds and not before the start.
pub proof fn lemma_find_dash_line_lb(t: Seq<char>, from: int)
    ensures
        find_dash_line(t, from) is Some ==> from <= find_dash_line(t, from)->0 && find_dash_line(
            t,
            from,
        )->0 + 3 <= t.len(),
    decreases t.len() - from,
{
    if !(from < 0 || from >= t.len()) && !dash_line_at(t, from) {
        lemma_find_dash_line_lb(t, from + 1);
    }
}

/// Whether a line consisting of exactly `---` starts at `j`.
fn dash_line_at_exec(t: &Vec<char>, j: usize) -> (r: bool)
    ensures
        r == dash_line_at(t@, j as int),
{
    let n = t.len();
    if n < 3 || j > n - 3 {
        return false;
    }
    if !(t[j] == '-' && t[j + 1] == '-' && t[j + 2] == '-') {
        proof {
            if matches_at(t@, j as int, dash3()) {
                assert(t@.subrange(j as int, j as int + 3)[0] == t@[j as int]);
                assert(t@.subrange(j as int, j as int + 3)[1] == t@[j as int + 1]);
                assert(t@.subrange(j as int, j as int + 3)[2] == t@[j as int + 2]);
            }
        }
        return false;
    }
    proof {
        assert(t@.subrange(j as int, j as int + 3) =~= dash3());
    }
    if !(j == 0 || t[j - 1] == '\n') {
        return false;
    }
    j + 3 == n || t[j + 3] == '\n' || (j + 4 < n && t[j + 3] == '\r' && t[j + 4] == '\n')
}

/// Finds the first delimiter line at or after `from`.
fn find_dash_line_exec(t: &Vec<char>, from: usize) -> (r: Option<usize>)
    ensures
        r is Some ==> find_dash_line(t@, from as int) == Some(r->0 as int),
        r is None ==> find_dash_line(t@, from as int) is None,
{
    let n = t.len();
    let mut i = from;
    while i < n
        invariant
            n == t@.len(),
            from <= i,
            find_dash_line(t@, from as int) == find_dash_line(t@, i as int),
        decreases n - i,
    {
        if dash_line_at_exec(t, i) {
            return Some(i);
        }
        i = i + 1;
    }
    None
}

/// Parses the document, including the front matter.
///
/// The input is trimmed; a leading line consisting of exactly `---` opens
/// the front matter, which the next such line closes — its absence is the
/// one fatal error.  The rest (or, without front matter, the whole trimmed
/// input) is the Markdown body, parsed as [`parse_md`] does.
pub fn parse(input: &str) -> (r: Result<ParseRes, ParseError>)
    ensures
        ({
            let t = spec_trim(input@);
            if dash_line_at(t, 0) {
                match find_dash_line(t, 3) {
                    Some(j) => {
                        &&& r is Ok
                        &&& r->Ok_0.front_matter is Some
                        &&& r->Ok_0.front_matter->0@ == t.subrange(3, j)
                        &&& parse_res_matches(r->Ok_0, t.subrange(j + 3, t.len() as int))
                    },
                    None => {
                        &&& r is Err
                        &&& r->Err_0 == ParseError::MissingFrontMatterEndDelimiter
                    },
                }
            } else {
                &&& r is Ok
                &&& r->Ok_0.front_matter is None
                &&& parse_res_matches(r->Ok_0, t)
            }
        }),
{
    let chars = str_to_chars(input);
    let t = trim_ws_vec(&chars);
    if dash_line_at_exec(&t, 0) {
        match find_dash_line_exec(&t, 3) {
            Some(j) => {
                proof {
                    lemma_find_dash_line_lb(t@, 3);
                }
                let tl = t.len();
                let front = string_from_range(&t, 3, j);
                let body = vec_range(&t, j + 3, tl);
                let body_str = chars_to_string(&body);
                let (headings, body_res, warnings) = parse_md(body_str.as_str());
                Ok(
                    ParseRes {
                        front_matter: Some(front),
                        headings,
                        body: body_res,
                        warnings,
                    },
                )
            },
            None => Err(ParseError::MissingFrontMatterEndDelimiter),
        }
    } else {
        let body_str = chars_to_string(&t);
        let (headings, body_res, warnings) = parse_md(body_str.as_str());
        Ok(ParseRes { front_matter: None, headings, body: body_res, warnings })
    }
}

} // verus!
