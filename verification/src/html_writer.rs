//! The rendering engine: walks a document tree and emits minified HTML.
//!
//! The functions `sp_render_*` are the functional specification: they state
//! the exact output character sequence for every tree. The executable writer
//! is proved to produce that sequence, or the first invalid heading level in
//! render order.

use vstd::prelude::*;
use crate::ast::{Block, BlockNode, Doc, Document, Inline, InlineNode, Sec, Section};
use crate::ast::{blocks_model, inlines_model, secs_model};
use crate::ast::{lemma_blocks_model, lemma_inlines_model, lemma_secs_model};
use crate::escape::{append_escaped, sp_escape};
use crate::text::{chars_to_string, push_str_chars, str_chars};

verus! {

broadcast use vstd::std_specs::vec::axiom_vec_index_decreases;

/// A rendering failure.
#[derive(Debug, Clone, PartialEq)]
pub enum HtmlError {
    InvalidHeadingLevel(u8),
}

/// The opening tag of a heading of the given level.
pub open spec fn sp_heading_open(level: u8) -> Seq<char> {
    if level == 1 {
        "<h1>"@
    } else if level == 2 {
        "<h2>"@
    } else if level == 3 {
        "<h3>"@
    } else if level == 4 {
        "<h4>"@
    } else if level == 5 {
        "<h5>"@
    } else if level == 6 {
        "<h6>"@
    } else {
        Seq::empty()
    }
}

/// The closing tag of a heading of the given level.
pub open spec fn sp_heading_close(level: u8) -> Seq<char> {
    if level == 1 {
        "</h1>"@
    } else if level == 2 {
        "</h2>"@
    } else if level == 3 {
        "</h3>"@
    } else if level == 4 {
        "</h4>"@
    } else if level == 5 {
        "</h5>"@
    } else if level == 6 {
        "</h6>"@
    } else {
        Seq::empty()
    }
}

/// The HTML for one inline node: escaped text, a line-break tag, or a tag
/// pair wrapping the rendered children.
pub open spec fn sp_render_inline(n: Inline) -> Seq<char>
    decreases n,
{
    match n {
        Inline::Text(t) => sp_escape(t),
        Inline::LineBreak => "<br>"@,
        Inline::Bold(children) => "<strong>"@ + sp_render_inlines(children) + "</strong>"@,
        Inline::Italic(children) => "<em>"@ + sp_render_inlines(children) + "</em>"@,
        Inline::Link { text, url } => "<a href=\""@ + sp_escape(url) + "\">"@ + sp_render_inlines(
            text,
        ) + "</a>"@,
    }
}

/// The HTML for a sequence of inline nodes, in order.
pub open spec fn sp_render_inlines(ns: Seq<Inline>) -> Seq<char>
    decreases ns,
{
    if ns.len() == 0 {
        Seq::empty()
    } else {
        sp_render_inline(ns[0]) + sp_render_inlines(ns.drop_first())
    }
}

/// The HTML for one block: a paragraph tag pair, or a self-closing image tag
/// with escaped URL and alt text attributes, in that order.
pub open spec fn sp_render_block(b: Block) -> Seq<char> {
    match b {
        Block::Paragraph(inlines) => "<p>"@ + sp_render_inlines(inlines) + "</p>"@,
        Block::Image { alt_text, url } => "<img src=\""@ + sp_escape(url) + "\" alt=\""@
            + sp_escape(alt_text) + "\">"@,
    }
}

/// The HTML for a sequence of blocks, in order.
pub open spec fn sp_render_blocks(bs: Seq<Block>) -> Seq<char>
    decreases bs,
{
    if bs.len() == 0 {
        Seq::empty()
    } else {
        sp_render_block(bs[0]) + sp_render_blocks(bs.drop_first())
    }
}

/// The HTML for one section: its heading tag pair wrapping the rendered
/// title, its content blocks, then its subsections; or the first invalid
/// heading level found.
pub open spec fn sp_render_section(sec: Sec) -> Result<Seq<char>, u8>
    decreases sec, 1int,
{
    if 1 <= sec.level <= 6 {
        match sp_render_sections(sec.subsections) {
            Ok(subs) => Ok(
                sp_heading_open(sec.level) + sp_render_inlines(sec.title) + sp_heading_close(
                    sec.level,
                ) + sp_render_blocks(sec.content) + subs,
            ),
            Err(l) => Err(l),
        }
    } else {
        Err(sec.level)
    }
}

/// The HTML for a sequence of sections, in order.
pub open spec fn sp_render_sections(ss: Seq<Sec>) -> Result<Seq<char>, u8>
    decreases ss, 0int,
{
    if ss.len() == 0 {
        Ok(Seq::empty())
    } else {
        match sp_render_section(ss[0]) {
            Ok(h) => match sp_render_sections(ss.drop_first()) {
                Ok(t) => Ok(h + t),
                Err(l) => Err(l),
            },
            Err(l) => Err(l),
        }
    }
}

/// The HTML for a whole document: preamble blocks, then all sections.
pub open spec fn sp_render_doc(d: Doc) -> Result<Seq<char>, u8> {
    match sp_render_sections(d.sections) {
        Ok(t) => Ok(sp_render_blocks(d.content) + t),
        Err(l) => Err(l),
    }
}

/// HTML writer for converting parsed markdown documents to minified HTML.
pub struct HtmlWriter {}

impl HtmlWriter {
    /// Creates a writer.
    pub fn new() -> (r: Self) {
        Self {  }
    }

    /// Converts a parsed markdown document to minified HTML.
    pub fn write_html(&self, document: &Document) -> (r: Result<String, HtmlError>)
        ensures
            match sp_render_doc(document@) {
                Ok(out) => r matches Ok(s) && s@ == out,
                Err(l) => r matches Err(e) && e == HtmlError::InvalidHeadingLevel(l),
            },
    {
        let mut out: Vec<char> = Vec::new();
        self.render_blocks_into(&document.content, &mut out);
        let ghost ms = secs_model(document.sections@);
        proof {
            lemma_secs_model(document.sections@);
            assert(ms.skip(0) =~= ms);
            assert(Seq::<char>::empty() + sp_render_blocks(blocks_model(document.content@))
                =~= out@);
        }
        let n = document.sections.len();
        let mut i: usize = 0;
        while i < n
            invariant
                0 <= i <= n,
                n == document.sections.len(),
                ms == secs_model(document.sections@),
                ms.len() == n,
                forall|k: int| 0 <= k < n ==> ms[k] == document.sections@[k]@,
                sp_render_doc(document@) == (match sp_render_sections(ms.skip(i as int)) {
                    Ok(t) => Ok::<Seq<char>, u8>(out@ + t),
                    Err(l) => Err(l),
                }),
            decreases n - i,
        {
            let ghost o0 = out@;
            let piece = match self.render_section(&document.sections[i]) {
                Ok(p) => p,
                Err(e) => {
                    return Err(e);
                },
            };
            let mut piece = piece;
            out.append(&mut piece);
            proof {
                assert(ms.skip(i as int)[0] == ms[i as int]);
                assert(ms.skip(i as int).drop_first() =~= ms.skip(i as int + 1));
                match sp_render_sections(ms.skip(i as int + 1)) {
                    Ok(t) => {
                        assert(o0 + (sp_render_section(ms[i as int])->Ok_0 + t) =~= out@ + t);
                    },
                    Err(_) => (),
                }
            }
            i = i + 1;
        }
        proof {
            assert(ms.skip(n as int) =~= Seq::<Sec>::empty());
        }
        Ok(chars_to_string(&out))
    }

    /// Renders a section and its subsections recursively.
    fn render_section(&self, section: &Section) -> (r: Result<Vec<char>, HtmlError>)
        ensures
            match sp_render_section(section@) {
                Ok(out) => r matches Ok(v) && v@ == out,
                Err(l) => r matches Err(e) && e == HtmlError::InvalidHeadingLevel(l),
            },
        decreases *section,
    {
        let level = section.level;
        if !(1 <= level && level <= 6) {
            return Err(HtmlError::InvalidHeadingLevel(level));
        }
        let mut out: Vec<char> = Vec::new();
        if level == 1 {
            push_str_chars(&mut out, "<h1>");
        } else if level == 2 {
            push_str_chars(&mut out, "<h2>");
        } else if level == 3 {
            push_str_chars(&mut out, "<h3>");
        } else if level == 4 {
            push_str_chars(&mut out, "<h4>");
        } else if level == 5 {
            push_str_chars(&mut out, "<h5>");
        } else {
            push_str_chars(&mut out, "<h6>");
        }
        self.render_inlines_into(&section.title, &mut out);
        if level == 1 {
            push_str_chars(&mut out, "</h1>");
        } else if level == 2 {
            push_str_chars(&mut out, "</h2>");
        } else if level == 3 {
            push_str_chars(&mut out, "</h3>");
        } else if level == 4 {
            push_str_chars(&mut out, "</h4>");
        } else if level == 5 {
            push_str_chars(&mut out, "</h5>");
        } else {
            push_str_chars(&mut out, "</h6>");
        }
        self.render_blocks_into(&section.content, &mut out);
        let ghost ms = secs_model(section.subsections@);
        proof {
            lemma_secs_model(section.subsections@);
            assert(ms.skip(0) =~= ms);
        }
        let n = section.subsections.len();
        let mut i: usize = 0;
        while i < n
            invariant
                0 <= i <= n,
                n == section.subsections.len(),
                ms == secs_model(section.subsections@),
                ms.len() == n,
                forall|k: int| 0 <= k < n ==> ms[k] == section.subsections@[k]@,
                1 <= section@.level <= 6,
                ms == section@.subsections,
                sp_render_section(section@) == (match sp_render_sections(ms.skip(i as int)) {
                    Ok(t) => Ok::<Seq<char>, u8>(out@ + t),
                    Err(l) => Err(l),
                }),
            decreases n - i,
        {
            let ghost o0 = out@;
            let piece = match self.render_section(&section.subsections[i]) {
                Ok(p) => p,
                Err(e) => {
                    return Err(e);
                },
            };
            let mut piece = piece;
            out.append(&mut piece);
            proof {
                assert(ms.skip(i as int)[0] == ms[i as int]);
                assert(ms.skip(i as int).drop_first() =~= ms.skip(i as int + 1));
                match sp_render_sections(ms.skip(i as int + 1)) {
                    Ok(t) => {
                        assert(o0 + (sp_render_section(ms[i as int])->Ok_0 + t) =~= out@ + t);
                    },
                    Err(_) => (),
                }
            }
            i = i + 1;
        }
        proof {
            assert(ms.skip(n as int) =~= Seq::<Sec>::empty());
        }
        Ok(out)
    }

    /// Renders a sequence of blocks into `out`.
    fn render_blocks_into(&self, blocks: &Vec<BlockNode>, out: &mut Vec<char>)
        ensures
            final(out)@ == old(out)@ + sp_render_blocks(blocks_model(blocks@)),
    {
        let ghost o0 = out@;
        let ghost mb = blocks_model(blocks@);
        proof {
            lemma_blocks_model(blocks@);
            assert(mb.skip(0) =~= mb);
        }
        let n = blocks.len();
        let mut i: usize = 0;
        while i < n
            invariant
                0 <= i <= n,
                n == blocks.len(),
                mb == blocks_model(blocks@),
                mb.len() == n,
                forall|k: int| 0 <= k < n ==> mb[k] == blocks@[k]@,
                out@ + sp_render_blocks(mb.skip(i as int)) == o0 + sp_render_blocks(mb),
            decreases n - i,
        {
            let ghost p0 = out@;
            self.render_block_into(&blocks[i], out);
            proof {
                assert(mb.skip(i as int)[0] == mb[i as int]);
                assert(mb.skip(i as int).drop_first() =~= mb.skip(i as int + 1));
                assert(p0 + (sp_render_block(mb[i as int]) + sp_render_blocks(
                    mb.skip(i as int + 1),
                )) =~= out@ + sp_render_blocks(mb.skip(i as int + 1)));
            }
            i = i + 1;
        }
        proof {
            assert(mb.skip(n as int) =~= Seq::<Block>::empty());
            assert(out@ + Seq::<char>::empty() =~= out@);
            assert(o0 + sp_render_blocks(mb) =~= out@);
        }
    }

    /// Renders one block into `out`.
    fn render_block_into(&self, block: &BlockNode, out: &mut Vec<char>)
        ensures
            final(out)@ == old(out)@ + sp_render_block(block@),
    {
        match block {
            BlockNode::Paragraph(inlines) => {
                push_str_chars(out, "<p>");
                self.render_inlines_into(inlines, out);
                push_str_chars(out, "</p>");
            },
            BlockNode::Image { alt_text, url } => {
                push_str_chars(out, "<img src=\"");
                let url_chars = str_chars(url.as_str());
                append_escaped(out, &url_chars);
                push_str_chars(out, "\" alt=\"");
                let alt_chars = str_chars(alt_text.as_str());
                append_escaped(out, &alt_chars);
                push_str_chars(out, "\">");
            },
        }
    }

    /// Renders a sequence of inline nodes into `out`.
    fn render_inlines_into(&self, nodes: &Vec<InlineNode>, out: &mut Vec<char>)
        ensures
            final(out)@ == old(out)@ + sp_render_inlines(inlines_model(nodes@)),
        decreases nodes@, 1int,
    {
        let ghost o0 = out@;
        let ghost mn = inlines_model(nodes@);
        proof {
            lemma_inlines_model(nodes@);
            assert(mn.skip(0) =~= mn);
        }
        let n = nodes.len();
        let mut i: usize = 0;
        while i < n
            invariant
                0 <= i <= n,
                n == nodes.len(),
                mn == inlines_model(nodes@),
                mn.len() == n,
                forall|k: int| 0 <= k < n ==> mn[k] == nodes@[k]@,
                out@ + sp_render_inlines(mn.skip(i as int)) == o0 + sp_render_inlines(mn),
            decreases n - i,
        {
            let ghost p0 = out@;
            self.render_inline_into(&nodes[i], out);
            proof {
                assert(mn.skip(i as int)[0] == mn[i as int]);
                assert(mn.skip(i as int).drop_first() =~= mn.skip(i as int + 1));
                assert(p0 + (sp_render_inline(mn[i as int]) + sp_render_inlines(
                    mn.skip(i as int + 1),
                )) =~= out@ + sp_render_inlines(mn.skip(i as int + 1)));
            }
            i = i + 1;
        }
        proof {
            assert(mn.skip(n as int) =~= Seq::<Inline>::empty());
            assert(out@ + Seq::<char>::empty() =~= out@);
            assert(o0 + sp_render_inlines(mn) =~= out@);
        }
    }

    /// Renders one inline node into `out`.
    fn render_inline_into(&self, node: &InlineNode, out: &mut Vec<char>)
        ensures
            final(out)@ == old(out)@ + sp_render_inline(node@),
        decreases *node, 0int,
    {
        match node {
            InlineNode::Text(text) => {
                let text_chars = str_chars(text.as_str());
                append_escaped(out, &text_chars);
            },
            InlineNode::LineBreak => {
                push_str_chars(out, "<br>");
            },
            InlineNode::Bold(children) => {
                push_str_chars(out, "<strong>");
                self.render_inlines_into(children, out);
                push_str_chars(out, "</strong>");
            },
            InlineNode::Italic(children) => {
                push_str_chars(out, "<em>");
                self.render_inlines_into(children, out);
                push_str_chars(out, "</em>");
            },
            InlineNode::Link { text, url } => {
                push_str_chars(out, "<a href=\"");
                let url_chars = str_chars(url.as_str());
                append_escaped(out, &url_chars);
                push_str_chars(out, "\">");
                self.render_inlines_into(text, out);
                push_str_chars(out, "</a>");
            },
        }
    }
}

impl Default for HtmlWriter {
    /// A writer with the default configuration.
    fn default() -> Self {
        HtmlWriter::new()
    }
}

} // verus!
