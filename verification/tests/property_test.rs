use std::path::PathBuf;
use wtf::ast::{BlockNode, Document, InlineNode, ParseError, Section};
use wtf::html_writer::{HtmlError, HtmlWriter};
use wtf::parser::MarkdownParser;
use wtf::router::{escape_html_attr, generate_sitemap_footer, SitemapEntry};
use wtf::server::{extract_title, inline_nodes_to_text, ServerConfig};

#[test]
fn test_unclosed_bold_error_variant() {
    let result = MarkdownParser::parse("**unclosed bold");
    match result {
        Err(ParseError::UnclosedDelimiter {
            delimiter,
            position,
        }) => {
            assert_eq!(delimiter, "**");
            assert_eq!(position, 0);
        }
        _ => panic!("Expected UnclosedDelimiter"),
    }
}

#[test]
fn test_unclosed_italic_error_variant() {
    let result = MarkdownParser::parse("x *unclosed");
    match result {
        Err(ParseError::UnclosedDelimiter {
            delimiter,
            position,
        }) => {
            assert_eq!(delimiter, "*");
            assert_eq!(position, 2);
        }
        _ => panic!("Expected UnclosedDelimiter"),
    }
}

#[test]
fn test_malformed_link_error_variant() {
    let result = MarkdownParser::parse("[text]no-paren");
    assert!(matches!(result, Err(ParseError::MalformedLink { .. })));
}

#[test]
fn test_malformed_image_missing_paren() {
    let result = MarkdownParser::parse("![alt]no-paren");
    assert!(matches!(result, Err(ParseError::MalformedImage { .. })));
}

#[test]
fn test_malformed_image_newline_in_url() {
    let result = MarkdownParser::parse("![alt](url\n)");
    assert!(matches!(result, Err(ParseError::MalformedImage { .. })));
}

#[test]
fn test_image_alt_escapes_resolve() {
    let doc = MarkdownParser::parse("![alt \\[2024\\]](url)").unwrap();
    match &doc.content()[0] {
        BlockNode::Image { alt_text, url } => {
            assert_eq!(alt_text, "alt [2024]");
            assert_eq!(url, "url");
        }
        _ => panic!("Expected Image"),
    }
}

#[test]
fn test_link_url_is_trimmed() {
    let doc = MarkdownParser::parse("[link](  https://example.com  )").unwrap();
    match &doc.content()[0] {
        BlockNode::Paragraph(inlines) => match &inlines[0] {
            InlineNode::Link { url, .. } => assert_eq!(url, "https://example.com"),
            _ => panic!("Expected Link"),
        },
        _ => panic!("Expected Paragraph"),
    }
}

#[test]
fn test_link_url_trims_unicode_whitespace() {
    let doc = MarkdownParser::parse("[link](\u{a0}url\u{a0})").unwrap();
    match &doc.content()[0] {
        BlockNode::Paragraph(inlines) => match &inlines[0] {
            InlineNode::Link { url, .. } => assert_eq!(url, "url"),
            _ => panic!("Expected Link"),
        },
        _ => panic!("Expected Paragraph"),
    }
}

#[test]
fn test_render_rejects_invalid_heading_level() {
    // the parser can never produce this section; the renderer still checks
    let section = Section::new(7, vec![InlineNode::Text("Bad".to_string())]);
    let document = Document {
        content: Vec::new(),
        sections: vec![section],
    };
    let writer = HtmlWriter::new();
    let result = writer.write_html(&document);
    assert_eq!(result, Err(HtmlError::InvalidHeadingLevel(7)));
}

#[test]
fn test_render_zero_heading_level_rejected() {
    let section = Section::new(0, Vec::new());
    let document = Document {
        content: Vec::new(),
        sections: vec![section],
    };
    let writer = HtmlWriter::new();
    let result = writer.write_html(&document);
    assert_eq!(result, Err(HtmlError::InvalidHeadingLevel(0)));
}

#[test]
fn test_parsed_documents_always_render() {
    // levels the parser yields always lie between one and six
    let inputs = [
        "",
        "\n\n\n",
        "plain",
        "# one\n###### six\n####### capped at six",
        "pre\n\n# a\n## b\n### c\n#### d\n##### e\n###### f\ntext",
    ];
    let writer = HtmlWriter::new();
    for input in inputs {
        let doc = MarkdownParser::parse(input).unwrap();
        assert!(writer.write_html(&doc).is_ok());
    }
}

#[test]
fn test_escaping_is_not_idempotent() {
    let once = escape_html_attr("&");
    let twice = escape_html_attr(&once);
    assert_eq!(once, "&amp;");
    assert_eq!(twice, "&amp;amp;");
    assert_ne!(once, twice);
}

#[test]
fn test_escaped_output_has_no_raw_specials() {
    let html = escape_html_attr("<>&\"'");
    assert_eq!(html, "&lt;&gt;&amp;&quot;&#39;");
    let doc = MarkdownParser::parse("a<b \"quoted\" & 'single'").unwrap();
    let rendered = HtmlWriter::new().write_html(&doc).unwrap();
    assert_eq!(
        rendered,
        "<p>a&lt;b &quot;quoted&quot; &amp; &#39;single&#39;</p>"
    );
}

#[test]
fn test_seven_hashes_cap_at_six() {
    let doc = MarkdownParser::parse("####### Seven").unwrap();
    assert_eq!(doc.sections()[0].level(), 6);
    let html = HtmlWriter::new().write_html(&doc).unwrap();
    assert_eq!(html, "<h6># Seven</h6>");
}

#[test]
fn test_heading_without_space() {
    let doc = MarkdownParser::parse("#Title").unwrap();
    let html = HtmlWriter::new().write_html(&doc).unwrap();
    assert_eq!(html, "<h1>Title</h1>");
}

#[test]
fn test_empty_document_builders() {
    let empty = Document::new();
    assert_eq!(empty.content().len(), 0);
    assert_eq!(empty.sections().len(), 0);
    let default = Document::default();
    assert_eq!(default.content().len(), 0);
    assert_eq!(default.sections().len(), 0);
    assert_eq!(HtmlWriter::new().write_html(&empty).unwrap(), "");
}

#[test]
fn test_section_builder_fields() {
    let section = Section::new(3, vec![InlineNode::Text("T".to_string())]);
    assert_eq!(section.level(), 3);
    assert_eq!(section.title().len(), 1);
    assert_eq!(section.content().len(), 0);
    assert_eq!(section.subsections().len(), 0);
}

#[test]
fn test_parser_new_is_empty() {
    let parser = MarkdownParser::new();
    assert_eq!(parser.pos, 0);
    assert_eq!(parser.chars.len(), 0);
}

#[test]
fn test_extract_title_unwraps_formatting() {
    let doc = MarkdownParser::parse("# My **Big** *Nice* [T](u)\n\nBody").unwrap();
    assert_eq!(extract_title(&doc), "My Big Nice T");
}

#[test]
fn test_inline_nodes_to_text_line_break_becomes_space() {
    let nodes = vec![
        InlineNode::Text("a".to_string()),
        InlineNode::LineBreak,
        InlineNode::Text("b".to_string()),
    ];
    assert_eq!(inline_nodes_to_text(&nodes), "a b");
}

#[test]
fn test_extract_title_skips_non_h1() {
    let doc = MarkdownParser::parse("## Second Level").unwrap();
    assert_eq!(extract_title(&doc), "Page");
}

#[test]
fn test_server_config_address_edges() {
    let config = ServerConfig::new(PathBuf::from("/test")).with_port(65535);
    assert_eq!(config.address(), "0.0.0.0:65535");
    let config = ServerConfig::new(PathBuf::from("/test")).with_port(0);
    assert_eq!(config.address(), "0.0.0.0:0");
}

#[test]
fn test_footer_escapes_entry_names_and_urls() {
    let entries = vec![SitemapEntry::new(
        "a&b".to_string(),
        "/x\"y".to_string(),
    )];
    let html = generate_sitemap_footer(&entries, None);
    assert!(html.contains("<a href=\"/x&quot;y\">a&amp;b</a>"));
}

#[test]
fn test_unterminated_image_url_at_eof() {
    // the image URL scan ends silently at end of input
    let doc = MarkdownParser::parse("![alt](url").unwrap();
    match &doc.content()[0] {
        BlockNode::Image { alt_text, url } => {
            assert_eq!(alt_text, "alt");
            assert_eq!(url, "url");
        }
        _ => panic!("Expected Image"),
    }
}

#[test]
fn test_bold_inside_link_text() {
    let doc = MarkdownParser::parse("[**b** t](u)").unwrap();
    match &doc.content()[0] {
        BlockNode::Paragraph(inlines) => match &inlines[0] {
            InlineNode::Link { text, url } => {
                assert_eq!(url, "u");
                assert_eq!(text.len(), 2);
                assert!(matches!(text[0], InlineNode::Bold(_)));
                assert!(matches!(text[1], InlineNode::Text(_)));
            }
            _ => panic!("Expected Link"),
        },
        _ => panic!("Expected Paragraph"),
    }
}

#[test]
fn test_paragraph_ends_at_heading() {
    let doc = MarkdownParser::parse("para line\n# head").unwrap();
    assert_eq!(doc.content().len(), 1);
    assert_eq!(doc.sections().len(), 1);
    let html = HtmlWriter::new().write_html(&doc).unwrap();
    assert_eq!(html, "<p>para line</p><h1>head</h1>");
}
