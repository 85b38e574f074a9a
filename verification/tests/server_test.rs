use std::path::PathBuf;
use wtf::ast::InlineNode;
use wtf::parser::MarkdownParser;
use wtf::server::{
    escape_html_title, extract_title, inline_nodes_to_text, wrap_html_document, ServerConfig,
};

const DEFAULT_TITLE: &str = "Page";

#[test]
fn test_server_config_new() {
    let config = ServerConfig::new(PathBuf::from("/test"));
    assert_eq!(config.host, "0.0.0.0");
    assert_eq!(config.port, 8080);
    assert_eq!(config.address(), "0.0.0.0:8080");
}

#[test]
fn test_server_config_with_host() {
    let config = ServerConfig::new(PathBuf::from("/test")).with_host("127.0.0.1".to_string());
    assert_eq!(config.host, "127.0.0.1");
    assert_eq!(config.address(), "127.0.0.1:8080");
}

#[test]
fn test_server_config_with_port() {
    let config = ServerConfig::new(PathBuf::from("/test")).with_port(3000);
    assert_eq!(config.port, 3000);
    assert_eq!(config.address(), "0.0.0.0:3000");
}

#[test]
fn test_server_config_default() {
    let config = ServerConfig::new(PathBuf::from("/test"));
    assert_eq!(config.host, "0.0.0.0");
    assert_eq!(config.port, 8080);
}

#[test]
fn test_server_config_custom() {
    let config = ServerConfig::new(PathBuf::from("/test"))
        .with_host("127.0.0.1".to_string())
        .with_port(3000);

    assert_eq!(config.host, "127.0.0.1");
    assert_eq!(config.port, 3000);
}

#[test]
fn test_wrap_html_document() {
    let html = wrap_html_document("Test Title", "<p>Content</p>");
    assert!(html.contains("<!DOCTYPE html>"));
    assert!(html.contains("<title>Test Title</title>"));
    assert!(html.contains("<p>Content</p>"));
    assert!(html.contains("<meta charset=\"utf-8\">"));
}

#[test]
fn test_escape_html_title() {
    let escaped = escape_html_title("<script>alert('XSS')</script>");
    assert_eq!(escaped, "&lt;script&gt;alert(&#39;XSS&#39;)&lt;/script&gt;");
}

#[test]
fn test_inline_nodes_to_text() {
    let nodes = vec![
        InlineNode::Text("Hello ".to_string()),
        InlineNode::Bold(vec![InlineNode::Text("world".to_string())]),
        InlineNode::Text("!".to_string()),
    ];

    let text = inline_nodes_to_text(&nodes);
    assert_eq!(text, "Hello world!");
}

#[test]
fn test_extract_title_with_h1() {
    let markdown = "# My Title\n\nContent here";
    let document = MarkdownParser::parse(markdown).unwrap();
    let title = extract_title(&document);
    assert_eq!(title, "My Title");
}

#[test]
fn test_extract_title_no_h1() {
    let markdown = "Just a paragraph";
    let document = MarkdownParser::parse(markdown).unwrap();
    let title = extract_title(&document);
    assert_eq!(title, DEFAULT_TITLE);
}
