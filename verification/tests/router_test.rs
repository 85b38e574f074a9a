use wtf::router::{
    dir_index_rel_path, escape_html_attr, escape_html_text, file_rel_path, generate_sitemap_footer,
    is_explicit_index_path, notfound_rel_paths, sanitize_path, RouterError, SitemapEntry,
};

#[test]
fn test_generate_sitemap_footer_basic() {
    let entries = vec![
        SitemapEntry::new("Root".to_string(), "/".to_string()),
        SitemapEntry::new("home".to_string(), "/home".to_string()),
    ];

    let html = generate_sitemap_footer(&entries, None);

    // Check for double HR
    assert!(html.contains("<hr><hr>"));

    // Check for UL structure
    assert!(html.contains("<ul>"));
    assert!(html.contains("</ul>"));

    // Check for links
    assert!(html.contains("<a href=\"/\">Root</a>"));
    assert!(html.contains("<a href=\"/home\">home</a>"));
}

#[test]
fn test_generate_sitemap_footer_nested() {
    let mut home_entry = SitemapEntry::new("home".to_string(), "/home".to_string());
    home_entry.children.push(SitemapEntry::new(
        "about".to_string(),
        "/home/about".to_string(),
    ));

    let entries = vec![home_entry];

    let html = generate_sitemap_footer(&entries, None);

    // Check for nested UL
    assert!(html.matches("<ul>").count() >= 2);
    assert!(html.matches("</ul>").count() >= 2);

    // Check for nested links
    assert!(html.contains("<a href=\"/home\">home</a>"));
    assert!(html.contains("<a href=\"/home/about\">about</a>"));
}

#[test]
fn test_generate_sitemap_footer_empty() {
    let entries: Vec<SitemapEntry> = vec![];
    let html = generate_sitemap_footer(&entries, None);

    // Should only have double HR when empty
    assert_eq!(html, "<hr><hr>");
}

#[test]
fn test_generate_sitemap_footer_with_current_path() {
    let entries = vec![
        SitemapEntry::new("root".to_string(), "/".to_string()),
        SitemapEntry::new("home".to_string(), "/home".to_string()),
    ];

    let html = generate_sitemap_footer(&entries, Some("/home"));

    // Check that /home has the indicator
    assert!(html.contains("<b>home ← you're here</b>"));

    // Check that root doesn't have the indicator
    assert!(html.contains("<a href=\"/\">root</a>"));
    assert!(!html.contains("<b>root"));
}

#[test]
fn test_generate_sitemap_footer_with_nested_current_path() {
    let mut home_entry = SitemapEntry::new("home".to_string(), "/home".to_string());
    home_entry.children.push(SitemapEntry::new(
        "about".to_string(),
        "/home/about".to_string(),
    ));

    let entries = vec![home_entry];

    let html = generate_sitemap_footer(&entries, Some("/home/about"));

    // Check that /home/about has the indicator
    assert!(html.contains("<b>about ← you're here</b>"));

    // Check that /home doesn't have the indicator
    assert!(html.contains("<a href=\"/home\">home</a>"));
    assert!(!html.contains("<b>home ← you're here</b>"));
}

#[test]
fn test_escape_html_attr() {
    let escaped = escape_html_attr("<script>alert('XSS')</script>");
    assert_eq!(escaped, "&lt;script&gt;alert(&#39;XSS&#39;)&lt;/script&gt;");
}

#[test]
fn test_escape_html_text() {
    let escaped = escape_html_text("<b>Bold & Beautiful</b>");
    assert_eq!(escaped, "&lt;b&gt;Bold &amp; Beautiful&lt;/b&gt;");
}

#[test]
fn test_sanitize_rejects_parent_dir() {
    let result = sanitize_path("/home/../etc/passwd");
    assert!(matches!(result, Err(RouterError::InvalidPath { .. })));
}

#[test]
fn test_sanitize_rejects_current_dir() {
    let result = sanitize_path("/home/./about");
    assert!(matches!(result, Err(RouterError::InvalidPath { .. })));
}

#[test]
fn test_sanitize_rejects_trailing_slash() {
    let result = sanitize_path("/home/");
    assert!(matches!(result, Err(RouterError::InvalidPath { .. })));
}

#[test]
fn test_sanitize_rejects_double_slash() {
    let result = sanitize_path("/home//about");
    assert!(matches!(result, Err(RouterError::InvalidPath { .. })));
}

#[test]
fn test_sanitize_strips_leading_slash() {
    assert_eq!(sanitize_path("/home/about").unwrap(), "home/about");
    assert_eq!(sanitize_path("/").unwrap(), "");
    assert_eq!(sanitize_path("").unwrap(), "");
}

#[test]
fn test_file_rel_path() {
    assert_eq!(file_rel_path("home/about"), "home/about.md");
    assert_eq!(file_rel_path("home"), "home.md");
}

#[test]
fn test_dir_index_rel_path() {
    assert_eq!(dir_index_rel_path("home/about"), "home/about/about.md");
    assert_eq!(dir_index_rel_path("home"), "home/home.md");
}

#[test]
fn test_explicit_index_path_detection() {
    assert!(is_explicit_index_path("home/home"));
    assert!(is_explicit_index_path("home/about/about"));
    assert!(!is_explicit_index_path("home/about"));
    assert!(!is_explicit_index_path("home"));
    assert!(!is_explicit_index_path(""));
}

#[test]
fn test_notfound_rel_paths_hierarchy() {
    let paths = notfound_rel_paths("home/about/me");
    assert_eq!(
        paths,
        vec![
            "home/about/me/404.md".to_string(),
            "home/about/404.md".to_string(),
            "home/404.md".to_string(),
            "404.md".to_string(),
        ]
    );
}

#[test]
fn test_notfound_rel_paths_root() {
    let paths = notfound_rel_paths("");
    assert_eq!(paths, vec!["404.md".to_string()]);
}
