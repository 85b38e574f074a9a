use wtf::html_writer::HtmlWriter;
use wtf::parser::MarkdownParser;

#[test]
fn test_simple_paragraph() {
    let doc = MarkdownParser::parse("Hello world").unwrap();
    let writer = HtmlWriter::new();
    let html = writer.write_html(&doc).unwrap();
    assert_eq!(html, "<p>Hello world</p>");
}

#[test]
fn html_writer_test_bold_text() {
    let doc = MarkdownParser::parse("This is **bold** text").unwrap();
    let writer = HtmlWriter::new();
    let html = writer.write_html(&doc).unwrap();
    assert_eq!(html, "<p>This is <strong>bold</strong> text</p>");
}

#[test]
fn html_writer_test_italic_text() {
    let doc = MarkdownParser::parse("This is *italic* text").unwrap();
    let writer = HtmlWriter::new();
    let html = writer.write_html(&doc).unwrap();
    assert_eq!(html, "<p>This is <em>italic</em> text</p>");
}

#[test]
fn html_writer_test_line_break() {
    let doc = MarkdownParser::parse("Line one\nLine two").unwrap();
    let writer = HtmlWriter::new();
    let html = writer.write_html(&doc).unwrap();
    assert_eq!(html, "<p>Line one<br>Line two</p>");
}

#[test]
fn html_writer_test_multiple_paragraphs() {
    let doc = MarkdownParser::parse("Para 1\n\nPara 2").unwrap();
    let writer = HtmlWriter::new();
    let html = writer.write_html(&doc).unwrap();
    assert_eq!(html, "<p>Para 1</p><p>Para 2</p>");
}

#[test]
fn html_writer_test_simple_heading() {
    let doc = MarkdownParser::parse("# Heading").unwrap();
    let writer = HtmlWriter::new();
    let html = writer.write_html(&doc).unwrap();
    assert_eq!(html, "<h1>Heading</h1>");
}

#[test]
fn html_writer_test_heading_with_content() {
    let doc = MarkdownParser::parse("# Heading\nContent here").unwrap();
    let writer = HtmlWriter::new();
    let html = writer.write_html(&doc).unwrap();
    assert_eq!(html, "<h1>Heading</h1><p>Content here</p>");
}

#[test]
fn html_writer_test_nested_sections() {
    let doc = MarkdownParser::parse("# H1\n## H2\n### H3").unwrap();
    let writer = HtmlWriter::new();
    let html = writer.write_html(&doc).unwrap();
    assert_eq!(html, "<h1>H1</h1><h2>H2</h2><h3>H3</h3>");
}

#[test]
fn html_writer_test_link() {
    let doc = MarkdownParser::parse("[link text](https://example.com)").unwrap();
    let writer = HtmlWriter::new();
    let html = writer.write_html(&doc).unwrap();
    assert_eq!(html, "<p><a href=\"https://example.com\">link text</a></p>");
}

#[test]
fn html_writer_test_image() {
    let doc = MarkdownParser::parse("![alt text](image.jpg)").unwrap();
    let writer = HtmlWriter::new();
    let html = writer.write_html(&doc).unwrap();
    assert_eq!(html, "<img src=\"image.jpg\" alt=\"alt text\">");
}

#[test]
fn test_html_entity_escaping() {
    let doc = MarkdownParser::parse("<script>alert(\"XSS\")</script>").unwrap();
    let writer = HtmlWriter::new();
    let html = writer.write_html(&doc).unwrap();
    assert!(html.contains("&lt;script&gt;"));
    assert!(html.contains("&quot;"));
    assert!(!html.contains("<script>"));
}

#[test]
fn html_writer_test_bold_with_italic_inside() {
    let doc = MarkdownParser::parse("**bold with *italic* inside**").unwrap();
    let writer = HtmlWriter::new();
    let html = writer.write_html(&doc).unwrap();
    assert_eq!(
        html,
        "<p><strong>bold with <em>italic</em> inside</strong></p>"
    );
}

#[test]
fn html_writer_test_link_with_formatting() {
    let doc = MarkdownParser::parse("[**bold** link](url)").unwrap();
    let writer = HtmlWriter::new();
    let html = writer.write_html(&doc).unwrap();
    assert_eq!(
        html,
        "<p><a href=\"url\"><strong>bold</strong> link</a></p>"
    );
}

#[test]
fn test_preamble_and_sections() {
    let doc = MarkdownParser::parse("Intro text\n\n# Heading\nContent").unwrap();
    let writer = HtmlWriter::new();
    let html = writer.write_html(&doc).unwrap();
    assert_eq!(html, "<p>Intro text</p><h1>Heading</h1><p>Content</p>");
}

#[test]
fn test_minified_output() {
    let doc = MarkdownParser::parse("# H1\n## H2").unwrap();
    let writer = HtmlWriter::new();
    let html = writer.write_html(&doc).unwrap();
    // Verify no newlines between tags
    assert!(!html.contains('\n'));
    assert_eq!(html, "<h1>H1</h1><h2>H2</h2>");
}
