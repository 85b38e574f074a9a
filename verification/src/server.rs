//! The pure pieces of the web server layer: its configuration, the HTML
//! document shell, and plain-text title extraction from a parsed document.
//!
//! The listener, request dispatch, and file reading are not part of the
//! library; they hand these functions plain values and embed what comes back.

use vstd::prelude::*;
use vstd::string::StringExecFns;
use crate::ast::{Doc, Document, Inline, InlineNode, Sec};
use crate::ast::{inlines_model, lemma_inlines_model};
use crate::escape::{append_escaped, sp_escape};
use crate::text::{chars_to_string, push_str_chars, str_chars};

verus! {

broadcast use vstd::std_specs::vec::axiom_vec_index_decreases;

/// Configuration for the web server.
#[derive(Debug, Clone)]
pub struct ServerConfig {
    /// Absolute path to the directory containing markdown files
    pub content_root: std::path::PathBuf,
    /// Host address to bind to (default: "0.0.0.0")
    pub host: String,
    /// Port to listen on (default: 8080)
    pub port: u16,
}

impl ServerConfig {
    /// Creates a configuration with the default host and port.
    pub fn new(content_root: std::path::PathBuf) -> (r: Self)
        ensures
            r.content_root == content_root,
            r.host@ == "0.0.0.0"@,
            r.port == 8080,
    {
        Self { content_root, host: String::from_str("0.0.0.0"), port: 8080 }
    }

    /// Sets the host address.
    pub fn with_host(self, host: String) -> (r: Self)
        ensures
            r.content_root == self.content_root,
            r.host == host,
            r.port == self.port,
    {
        Self { host, ..self }
    }

    /// Sets the port.
    pub fn with_port(self, port: u16) -> (r: Self)
        ensures
            r.content_root == self.content_root,
            r.host == self.host,
            r.port == port,
    {
        Self { port, ..self }
    }

    /// The server address in `host:port` form.
    pub fn address(&self) -> (r: String)
        ensures
            r@ == self.host@ + seq![':'] + sp_dec(self.port as int),
    {
        let mut out = str_chars(self.host.as_str());
        out.push(':');
        let mut digits = dec_digits(self.port);
        out.append(&mut digits);
        proof {
            assert(out@ =~= self.host@ + seq![':'] + sp_dec(self.port as int));
        }
        chars_to_string(&out)
    }
}

/// The decimal digit character for `d`.
pub open spec fn sp_digit(d: int) -> char {
    if d == 0 {
        '0'
    } else if d == 1 {
        '1'
    } else if d == 2 {
        '2'
    } else if d == 3 {
        '3'
    } else if d == 4 {
        '4'
    } else if d == 5 {
        '5'
    } else if d == 6 {
        '6'
    } else if d == 7 {
        '7'
    } else if d == 8 {
        '8'
    } else {
        '9'
    }
}

/// The decimal digits of `n`, most significant first, with no leading zero
/// except for zero itself.
pub open spec fn sp_dec(n: int) -> Seq<char>
    decreases n,
{
    if n < 10 {
        seq![sp_digit(n)]
    } else {
        sp_dec(n / 10).push(sp_digit(n % 10))
    }
}

/// The decimal digit character for `d`.
fn digit_char(d: u16) -> (r: char)
    requires
        d < 10,
    ensures
        r == sp_digit(d as int),
{
    if d == 0 {
        '0'
    } else if d == 1 {
        '1'
    } else if d == 2 {
        '2'
    } else if d == 3 {
        '3'
    } else if d == 4 {
        '4'
    } else if d == 5 {
        '5'
    } else if d == 6 {
        '6'
    } else if d == 7 {
        '7'
    } else if d == 8 {
        '8'
    } else {
        '9'
    }
}

/// The decimal digits of `n`, most significant first.
fn dec_digits(n: u16) -> (r: Vec<char>)
    ensures
        r@ == sp_dec(n as int),
{
    let mut buf: Vec<char> = Vec::new();
    let mut m = n;
    proof {
        assert(buf@.reverse() =~= Seq::<char>::empty());
        assert(sp_dec(n as int) + Seq::<char>::empty() =~= sp_dec(n as int));
    }
    while m >= 10
        invariant
            sp_dec(n as int) == sp_dec(m as int) + buf@.reverse(),
        decreases m,
    {
        let ghost b0 = buf@;
        let d = m % 10;
        buf.push(digit_char(d));
        m = m / 10;
        proof {
            assert(buf@.reverse() =~= seq![sp_digit(d as int)] + b0.reverse());
            assert(sp_dec(m as int) + (seq![sp_digit(d as int)] + b0.reverse()) =~= (sp_dec(
                m as int,
            ).push(sp_digit(d as int))) + b0.reverse());
        }
    }
    let ghost b1 = buf@;
    buf.push(digit_char(m));
    proof {
        assert(buf@.reverse() =~= seq![sp_digit(m as int)] + b1.reverse());
        assert(sp_dec(m as int) + b1.reverse() =~= seq![sp_digit(m as int)] + b1.reverse());
        assert(sp_dec(n as int) == buf@.reverse());
    }
    let len = buf.len();
    let mut out: Vec<char> = Vec::new();
    let mut i: usize = 0;
    while i < len
        invariant
            0 <= i <= len,
            len == buf.len(),
            out@ =~= buf@.reverse().take(i as int),
        decreases len - i,
    {
        out.push(buf[len - 1 - i]);
        i = i + 1;
    }
    proof {
        assert(buf@.reverse().take(len as int) =~= buf@.reverse());
        assert(out@ =~= sp_dec(n as int));
    }
    out
}

/// The complete HTML document around an escaped title and a body fragment.
pub open spec fn sp_wrap(title: Seq<char>, content: Seq<char>) -> Seq<char> {
    "<!DOCTYPE html>"@ + "<html>"@ + "<head>"@ + "<meta charset=\"utf-8\">"@ + "<title>"@
        + sp_escape(title) + "</title>"@ + "</head>"@ + "<body>"@ + content + "</body>"@
        + "</html>"@
}

/// Wraps content in a complete HTML document structure.
pub fn wrap_html_document(title: &str, content: &str) -> (r: String)
    ensures
        r@ == sp_wrap(title@, content@),
{
    let mut out: Vec<char> = Vec::new();
    push_str_chars(&mut out, "<!DOCTYPE html>");
    push_str_chars(&mut out, "<html>");
    push_str_chars(&mut out, "<head>");
    push_str_chars(&mut out, "<meta charset=\"utf-8\">");
    push_str_chars(&mut out, "<title>");
    let title_chars = str_chars(title);
    append_escaped(&mut out, &title_chars);
    push_str_chars(&mut out, "</title>");
    push_str_chars(&mut out, "</head>");
    push_str_chars(&mut out, "<body>");
    push_str_chars(&mut out, content);
    push_str_chars(&mut out, "</body>");
    push_str_chars(&mut out, "</html>");
    proof {
        assert(out@ =~= sp_wrap(title@, content@));
    }
    chars_to_string(&out)
}

/// Escapes HTML entities in title text.
pub fn escape_html_title(title: &str) -> (r: String)
    ensures
        r@ == sp_escape(title@),
{
    let v = str_chars(title);
    let mut out: Vec<char> = Vec::new();
    append_escaped(&mut out, &v);
    proof {
        assert(Seq::<char>::empty() + sp_escape(title@) =~= sp_escape(title@));
    }
    chars_to_string(&out)
}

/// The plain text of an inline node: formatting removed, line breaks turned
/// into single spaces, links reduced to their text.
pub open spec fn sp_plain_inline(n: Inline) -> Seq<char>
    decreases n,
{
    match n {
        Inline::Text(t) => t,
        Inline::LineBreak => seq![' '],
        Inline::Bold(children) => sp_plain_inlines(children),
        Inline::Italic(children) => sp_plain_inlines(children),
        Inline::Link { text, url } => sp_plain_inlines(text),
    }
}

/// The plain text of a sequence of inline nodes, concatenated.
pub open spec fn sp_plain_inlines(ns: Seq<Inline>) -> Seq<char>
    decreases ns,
{
    if ns.len() == 0 {
        Seq::empty()
    } else {
        sp_plain_inline(ns[0]) + sp_plain_inlines(ns.drop_first())
    }
}

/// The page title of a document: the plain text of its first top-level
/// section's title when that section is a level-one heading, otherwise a
/// fixed default.
pub open spec fn sp_title(d: Doc) -> Seq<char> {
    if d.sections.len() > 0 && d.sections[0].level == 1 {
        sp_plain_inlines(d.sections[0].title)
    } else {
        "Page"@
    }
}

/// Converts inline nodes to plain text, for title extraction.
pub fn inline_nodes_to_text(nodes: &[InlineNode]) -> (r: String)
    ensures
        r@ == sp_plain_inlines(inlines_model(nodes@)),
{
    let mut out: Vec<char> = Vec::new();
    plain_inlines_into(nodes, &mut out);
    proof {
        assert(Seq::<char>::empty() + sp_plain_inlines(inlines_model(nodes@)) =~= sp_plain_inlines(
            inlines_model(nodes@),
        ));
    }
    chars_to_string(&out)
}

/// Appends the plain text of a slice of inline nodes to `out`.
fn plain_inlines_into(nodes: &[InlineNode], out: &mut Vec<char>)
    ensures
        final(out)@ == old(out)@ + sp_plain_inlines(inlines_model(nodes@)),
    decreases nodes@, 1int,
{
    let ghost o0 = out@;
    let ghost mn = inlines_model(nodes@);
    proof {
        lemma_inlines_model(nodes@);
        assert(mn.skip(0) =~= mn);
    }
    let n = nodes.len();
    let mut i: usize = 0;
    while i < n
        invariant
            0 <= i <= n,
            n == nodes@.len(),
            mn == inlines_model(nodes@),
            mn.len() == n,
            forall|k: int| 0 <= k < n ==> mn[k] == nodes@[k]@,
            out@ + sp_plain_inlines(mn.skip(i as int)) == o0 + sp_plain_inlines(mn),
        decreases n - i,
    {
        let ghost p0 = out@;
        plain_inline_into(&nodes[i], out);
        proof {
            assert(mn.skip(i as int)[0] == mn[i as int]);
            assert(mn.skip(i as int).drop_first() =~= mn.skip(i as int + 1));
            assert(p0 + (sp_plain_inline(mn[i as int]) + sp_plain_inlines(mn.skip(i as int + 1)))
                =~= out@ + sp_plain_inlines(mn.skip(i as int + 1)));
        }
        i = i + 1;
    }
    proof {
        assert(mn.skip(n as int) =~= Seq::<Inline>::empty());
        assert(out@ + Seq::<char>::empty() =~= out@);
        assert(o0 + sp_plain_inlines(mn) =~= out@);
    }
}

/// Appends the plain text of one inline node to `out`.
fn plain_inline_into(node: &InlineNode, out: &mut Vec<char>)
    ensures
        final(out)@ == old(out)@ + sp_plain_inline(node@),
    decreases *node, 0int,
{
    match node {
        InlineNode::Text(t) => {
            push_str_chars(out, t.as_str());
        },
        InlineNode::LineBreak => {
            out.push(' ');
            proof {
                assert(final(out)@ =~= old(out)@ + seq![' ']);
            }
        },
        InlineNode::Bold(children) => {
            plain_inlines_into(children.as_slice(), out);
        },
        InlineNode::Italic(children) => {
            plain_inlines_into(children.as_slice(), out);
        },
        InlineNode::Link { text, url } => {
            plain_inlines_into(text.as_slice(), out);
        },
    }
}

/// Extracts the page title from a document.
pub fn extract_title(document: &Document) -> (r: String)
    ensures
        r@ == sp_title(document@),
{
    if document.sections.len() > 0 {
        let first = &document.sections[0];
        if first.level == 1 {
            proof {
                crate::ast::lemma_secs_model(document.sections@);
            }
            return inline_nodes_to_text(first.title.as_slice());
        }
    }
    proof {
        crate::ast::lemma_secs_model(document.sections@);
    }
    String::from_str("Page")
}

} // verus!
