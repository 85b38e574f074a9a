use wtf::parser::MarkdownParser;
use wtf::ast::{BlockNode, InlineNode};

#[test]
fn parser_test_simple_text() {
    let doc = MarkdownParser::parse("Hello world").unwrap();
    assert_eq!(doc.content().len(), 1);
    assert_eq!(doc.sections().len(), 0);

    match &doc.content()[0] {
        BlockNode::Paragraph(inlines) => {
            assert_eq!(inlines.len(), 1);
            match &inlines[0] {
                InlineNode::Text(text) => assert_eq!(text, "Hello world"),
                _ => panic!("Expected Text node"),
            }
        }
        _ => panic!("Expected Paragraph"),
    }
}

#[test]
fn parser_test_bold_text() {
    let doc = MarkdownParser::parse("This is **bold** text").unwrap();
    match &doc.content()[0] {
        BlockNode::Paragraph(inlines) => {
            assert_eq!(inlines.len(), 3);
            assert!(matches!(inlines[0], InlineNode::Text(_)));
            assert!(matches!(inlines[1], InlineNode::Bold(_)));
            assert!(matches!(inlines[2], InlineNode::Text(_)));
        }
        _ => panic!("Expected Paragraph"),
    }
}

#[test]
fn parser_test_italic_text() {
    let doc = MarkdownParser::parse("This is *italic* text").unwrap();
    match &doc.content()[0] {
        BlockNode::Paragraph(inlines) => {
            assert_eq!(inlines.len(), 3);
            assert!(matches!(inlines[1], InlineNode::Italic(_)));
        }
        _ => panic!("Expected Paragraph"),
    }
}

#[test]
fn parser_test_line_break() {
    let doc = MarkdownParser::parse("Line one\nLine two").unwrap();
    match &doc.content()[0] {
        BlockNode::Paragraph(inlines) => {
            assert_eq!(inlines.len(), 3);
            assert!(matches!(inlines[0], InlineNode::Text(_)));
            assert!(matches!(inlines[1], InlineNode::LineBreak));
            assert!(matches!(inlines[2], InlineNode::Text(_)));
        }
        _ => panic!("Expected Paragraph"),
    }
}

#[test]
fn parser_test_multiple_paragraphs() {
    let doc = MarkdownParser::parse("Para 1\n\nPara 2").unwrap();
    assert_eq!(doc.content().len(), 2);
}

#[test]
fn parser_test_simple_heading() {
    let doc = MarkdownParser::parse("# Heading\nContent").unwrap();
    assert_eq!(doc.sections().len(), 1);
    assert_eq!(doc.sections()[0].level(), 1);
    assert_eq!(doc.sections()[0].content().len(), 1);
}

#[test]
fn parser_test_nested_sections() {
    let doc = MarkdownParser::parse("# H1\n## H2\n### H3").unwrap();
    assert_eq!(doc.sections().len(), 1);
    assert_eq!(doc.sections()[0].subsections().len(), 1);
    assert_eq!(doc.sections()[0].subsections()[0].subsections().len(), 1);
}

#[test]
fn parser_test_link() {
    let doc = MarkdownParser::parse("[text](url)").unwrap();
    match &doc.content()[0] {
        BlockNode::Paragraph(inlines) => match &inlines[0] {
            InlineNode::Link { text, url } => {
                assert_eq!(url, "url");
                assert_eq!(text.len(), 1);
            }
            _ => panic!("Expected Link"),
        },
        _ => panic!("Expected Paragraph"),
    }
}

#[test]
fn parser_test_image() {
    let doc = MarkdownParser::parse("![alt text](image.jpg)").unwrap();
    match &doc.content()[0] {
        BlockNode::Image { alt_text, url } => {
            assert_eq!(alt_text, "alt text");
            assert_eq!(url, "image.jpg");
        }
        _ => panic!("Expected Image"),
    }
}
