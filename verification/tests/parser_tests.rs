use mdsycx::MarkupWarning;
use mdsycx::ParseError;
use mdsycx::parse;
use mdsycx::parse_md;

fn check(input: &str, expect: &str) {
    let (_headings, body, _warnings) = parse_md(input);
    assert_eq!(format!("{:?}", body.events), expect);
}

#[test]
fn parse_empty() {
    check(r#""#, "[]");
}

#[test]
fn parse_md_text() {
    check(
        r#"
Hello World!
Goodbye World!"#,
        r#"[Start("p"), Text("Hello World!\nGoodbye World!"), End, Text("\n")]"#,
    );
}

#[test]
fn parse_md_features() {
    check(
        r#"
# My heading
## My subtitle
My text

- List item"#,
        r#"[Start("h1"), Text("My heading"), Attr("id", "my-heading"), End, Text("\n"), Start("h2"), Text("My subtitle"), Attr("id", "my-subtitle"), End, Text("\n"), Start("p"), Text("My text"), End, Text("\n"), Start("ul"), Text("\n"), Start("li"), Text("List item"), End, Text("\n"), End, Text("\n")]"#,
    );
}

#[test]
fn parse_html_block() {
    check(
        r#"<div id="test">A div!</div>"#,
        r#"[Start("div"), Attr("id", "test"), Text("A div!"), End]"#,
    );
}

#[test]
fn parse_html_self_closing_tag() {
    check(r#"<br />"#, r#"[Start("br"), End]"#);
}

#[test]
fn parse_nested_html() {
    check(
        r#"<div><p>Test</p></div>"#,
        r#"[Start("div"), Start("p"), Text("Test"), End, End]"#,
    );
}

#[test]
fn parse_multiline_html() {
    check(
        r#"
<div>
    <p>Nested</p>
    Text
</div>"#,
        r#"[Start("div"), Text("\n    "), Start("p"), Text("Nested"), End, Text("\n    Text\n"), End]"#,
    );
}

#[test]
fn parse_inline_html_in_text() {
    check(
        r#"<i>Some inline</i> text"#,
        r#"[Start("p"), Start("i"), Text("Some inline"), End, Text(" text"), End, Text("\n")]"#,
    );
    check(
        r#"Some inline <em>text</em>"#,
        r#"[Start("p"), Text("Some inline "), Start("em"), Text("text"), End, End, Text("\n")]"#,
    );
}

#[test]
fn parse_inline_nested_html() {
    check(
        r#"Some inline <span><i>text</i></span>"#,
        r#"[Start("p"), Text("Some inline "), Start("span"), Start("i"), Text("text"), End, End, End, Text("\n")]"#,
    );
}

#[test]
fn check_duplicated_heading() {
    check(
        r#"
# Hello World
## Hello World!"#,
        r#"[Start("h1"), Text("Hello World"), Attr("id", "hello-world"), End, Text("\n"), Start("h2"), Text("Hello World!"), Attr("id", "hello-world-2"), End, Text("\n")]"#,
    );
}

#[test]
fn parse_front_matter() {
    let res = parse("---\ntitle: Test\n---\n# Hi").unwrap();
    assert_eq!(res.front_matter, Some("\ntitle: Test\n".to_string()));
    assert_eq!(res.headings.len(), 1);
    assert_eq!(res.headings[0].id, "hi");
    assert_eq!(res.headings[0].level, 1);
    assert_eq!(
        format!("{:?}", res.body.events),
        r#"[Start("h1"), Text("Hi"), Attr("id", "hi"), End, Text("\n")]"#
    );
}

#[test]
fn parse_without_front_matter() {
    let res = parse("plain text").unwrap();
    assert_eq!(res.front_matter, None);
    assert_eq!(
        format!("{:?}", res.body.events),
        r#"[Start("p"), Text("plain text"), End, Text("\n")]"#
    );
}

#[test]
fn parse_missing_front_matter_end() {
    let res = parse("---\ntitle: Test");
    assert_eq!(res, Err(ParseError::MissingFrontMatterEndDelimiter));
    assert_eq!(
        ParseError::MissingFrontMatterEndDelimiter.message(),
        "front matter is missing end delimiter"
    );
}

#[test]
fn parse_stray_close_is_dropped() {
    let (_headings, body, warnings) = parse_md("<div></div></div>");
    assert_eq!(format!("{:?}", body.events), r#"[Start("div"), End]"#);
    assert_eq!(warnings, vec![MarkupWarning::StrayClose]);
}

#[test]
fn parse_unclosed_tags_are_force_closed() {
    let (_headings, body, warnings) = parse_md("<div><p>open");
    assert_eq!(
        format!("{:?}", body.events),
        r#"[Start("div"), Start("p"), Text("open"), End, End]"#
    );
    assert_eq!(warnings, vec![MarkupWarning::Unclosed]);
}

#[test]
fn parse_named_entities() {
    check(
        "a &amp; b",
        r#"[Start("p"), Text("a & b"), End, Text("\n")]"#,
    );
}

#[test]
fn parse_numeric_entities() {
    check(
        "<div>&#65;&#x42;</div>",
        r#"[Start("div"), Text("AB"), End]"#,
    );
}

#[test]
fn parse_comment_is_skipped() {
    check(
        "<div><!-- a > b -->x</div>",
        r#"[Start("div"), Text("x"), End]"#,
    );
}

#[test]
fn parse_front_matter_delimiter_is_a_line() {
    // Only a line consisting of exactly `---` delimits front matter.
    let res = parse("----\ntitle: no\n----\nbody").unwrap();
    assert_eq!(res.front_matter, None);
    let res = parse("--- not a delimiter\nbody").unwrap();
    assert_eq!(res.front_matter, None);
    let res = parse("a---b").unwrap();
    assert_eq!(res.front_matter, None);
    // A closing `---` must also stand alone on its line.
    let res = parse("---\ntitle: t\nx --- y\nbody");
    assert_eq!(res, Err(ParseError::MissingFrontMatterEndDelimiter));
}

#[test]
fn parse_front_matter_crlf_lines() {
    let res = parse("---\r\ntitle: t\r\n---\r\n# Hi").unwrap();
    assert_eq!(res.front_matter, Some("\r\ntitle: t\r\n".to_string()));
    assert_eq!(res.headings.len(), 1);
    assert_eq!(res.headings[0].id, "hi");
}

#[test]
fn parse_seven_is_no_heading_level() {
    // Only h1..h6 are headings; other h-tags in raw HTML stay plain
    // elements, with no anchor and no outline record.
    let (headings, body, _w) = parse_md("<h7>Not a heading</h7>");
    assert!(headings.is_empty());
    assert_eq!(
        format!("{:?}", body.events),
        r#"[Start("p"), Start("h7"), Text("Not a heading"), End, End, Text("\n")]"#
    );
}

#[test]
fn parse_heading_outline() {
    let (headings, _body, _warnings) = parse_md("# Alpha\n\nsome text\n\n## Beta Two");
    assert_eq!(headings.len(), 2);
    assert_eq!(headings[0].id, "alpha");
    assert_eq!(headings[0].text, "Alpha");
    assert_eq!(headings[0].level, 1);
    assert_eq!(headings[1].id, "beta-two");
    assert_eq!(headings[1].text, "Beta Two");
    assert_eq!(headings[1].level, 2);
}
