use rustbox::markdown::markdown_to_html;

const HEAD: &str = "<!DOCTYPE html>\n<html>\n<head>\n    <title>Document</title>\n</head>\n<body>\n";
const TAIL: &str = "\n</body>\n</html>";

fn page(body: &str) -> String {
    format!("{}{}{}", HEAD, body, TAIL)
}

#[test]
fn empty_input_gives_empty_page() {
    assert_eq!(markdown_to_html(""), page(""));
}

#[test]
fn headings() {
    assert_eq!(markdown_to_html("# Title"), page("<h1>Title</h1>\n"));
    assert_eq!(markdown_to_html("## Part"), page("<h2> Part</h2>\n"));
    assert_eq!(markdown_to_html("### Sub"), page("<h3># Sub</h3>\n"));
    assert_eq!(markdown_to_html("   # Indented  "), page("<h1>Indented</h1>\n"));
}

#[test]
fn paragraphs_and_blank_lines() {
    assert_eq!(
        markdown_to_html("first line\n\n  \nsecond\r\n"),
        page("<p>first line</p>\n<p>second</p>\n")
    );
    assert_eq!(markdown_to_html("#nospace"), page("<p>#nospace</p>\n"));
}

#[test]
fn bold_markers_all_open() {
    assert_eq!(markdown_to_html("a **b** c"), page("<p>a <b>b<b> c</p>\n"));
    assert_eq!(markdown_to_html("***"), page("<p><b>*</p>\n"));
}

#[test]
fn mixed_document() {
    let md = "# Doc\nSome **bold** text\n\n## Next\nend";
    assert_eq!(
        markdown_to_html(md),
        page("<h1>Doc</h1>\n<p>Some <b>bold<b> text</p>\n<h2> Next</h2>\n<p>end</p>\n")
    );
}
