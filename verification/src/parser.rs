//! The parsing engine: a single-cursor scanner over the input characters that
//! builds the document tree.
//!
//! Every method's contract equates its result and cursor movement with the
//! corresponding function of [`crate::parse_spec`], so `parse` as a whole
//! returns exactly the document that [`sp_parse`] describes.

use vstd::prelude::*;
use crate::ast::{BlockNode, Document, InlineNode, ParseError, Section};
use crate::ast::{Block, Inline, PErr};
use crate::ast::{Sec, blocks_model, inlines_model, lemma_inlines_model_push, secs_model};
use crate::parse_spec::{
    clip, cons_items, lemma_block_bounds, lemma_block_image, lemma_block_para, lemma_bold_bounds,
    lemma_cons_items_assoc, lemma_cons_items_nil, lemma_heading_line_bounds,
    lemma_inline_items_bounds, lemma_italic_bounds, lemma_link_bounds, lemma_paragraph_unfold,
    lemma_section_bounds, lemma_section_items_block, lemma_section_items_end,
    lemma_section_items_sub, lemma_section_unfold, lemma_skip_blanks_bounds, lemma_text_bounds,
    sp_all_sections, sp_block, sp_bold, sp_bold_items, sp_document_items, sp_heading_line,
    sp_image, sp_image_alt, sp_image_url, sp_inline_items, sp_is_heading, sp_italic,
    sp_italic_items, sp_link, sp_link_items, sp_link_url, sp_paragraph, sp_para_lines, sp_parse,
    sp_peek_level, sp_scan_hashes, sp_section, sp_section_items, sp_skip_blanks, sp_text,
    sp_text_stop,
};
use crate::text::{chars_to_string, sp_trim, str_chars};

verus! {

/// Whether `c` ends a plain-text run, as [`sp_text_stop`] states.
fn text_stop(c: char, in_link: bool) -> (r: bool)
    ensures
        r == sp_text_stop(c, in_link),
{
    c == '\n' || c == '*' || (if in_link {
        c == ']'
    } else {
        c == '['
    })
}

/// The bold delimiter as an owned string.
fn bold_delim_string() -> (r: String)
    ensures
        r@ == seq!['*', '*'],
{
    let r = String::from_str("**");
    proof {
        reveal_strlit("**");
        assert(r@ =~= seq!['*', '*']);
    }
    r
}

/// The italic delimiter as an owned string.
fn italic_delim_string() -> (r: String)
    ensures
        r@ == seq!['*'],
{
    let r = String::from_str("*");
    proof {
        reveal_strlit("*");
        assert(r@ =~= seq!['*']);
    }
    r
}

/// The parsing engine's state: the input characters and a cursor into them.
pub struct MarkdownParser {
    pub chars: Vec<char>,
    pub pos: usize,
}

impl MarkdownParser {
    /// The cursor never leaves the input (one past the end included).
    pub open spec fn wf(self) -> bool {
        self.pos <= self.chars.len()
    }

    /// Creates a parser with no input.
    pub fn new() -> (r: Self)
        ensures
            r.chars@ == Seq::<char>::empty(),
            r.pos == 0,
    {
        Self { chars: Vec::new(), pos: 0 }
    }

    /// The character under the cursor, if any.
    fn peek(&self) -> (r: Option<char>)
        ensures
            r == (if self.pos < self.chars.len() {
                Some(self.chars@[self.pos as int])
            } else {
                None::<char>
            }),
    {
        if self.pos < self.chars.len() {
            Some(self.chars[self.pos])
        } else {
            None
        }
    }

    /// The character `offset` places past the cursor, if any.
    fn peek_at(&self, offset: usize) -> (r: Option<char>)
        requires
            self.pos + offset <= usize::MAX,
        ensures
            r == (if self.pos + offset < self.chars.len() {
                Some(self.chars@[self.pos + offset])
            } else {
                None::<char>
            }),
    {
        if self.pos + offset < self.chars.len() {
            Some(self.chars[self.pos + offset])
        } else {
            None
        }
    }

    /// Whether the bold delimiter `**` stands at the cursor.
    fn at_bold_delim(&self) -> (r: bool)
        requires
            self.wf(),
        ensures
            r == (self.pos + 2 <= self.chars.len() && self.chars@[self.pos as int] == '*'
                && self.chars@[self.pos as int + 1] == '*'),
    {
        self.pos < self.chars.len() && self.chars[self.pos] == '*' && self.pos + 1
            < self.chars.len() && self.chars[self.pos + 1] == '*'
    }

    /// Moves the cursor one character forward.
    fn advance(&mut self) -> (r: Option<char>)
        requires
            old(self).pos < old(self).chars.len(),
        ensures
            final(self).chars == old(self).chars,
            final(self).pos == old(self).pos + 1,
            r == Some(old(self).chars@[old(self).pos as int]),
    {
        let ch = self.peek();
        self.pos = self.pos + 1;
        ch
    }

    /// Whether the cursor is at the end of the input.
    fn is_eof(&self) -> (r: bool)
        ensures
            r == (self.pos >= self.chars.len()),
    {
        self.pos >= self.chars.len()
    }

    /// Whether a heading marker stands at the cursor.
    fn is_heading(&self) -> (r: bool)
        requires
            self.wf(),
        ensures
            r == sp_is_heading(self.chars@, self.pos as int),
    {
        self.peek() == Some('#')
    }

    /// Moves the cursor past any run of blank lines.
    fn skip_empty_lines(&mut self)
        requires
            old(self).wf(),
        ensures
            final(self).wf(),
            final(self).chars == old(self).chars,
            final(self).pos == sp_skip_blanks(old(self).chars@, old(self).pos as int),
    {
        while self.pos < self.chars.len() && self.chars[self.pos] == '\n'
            invariant
                self.wf(),
                self.chars == old(self).chars,
                sp_skip_blanks(self.chars@, self.pos as int) == sp_skip_blanks(
                    old(self).chars@,
                    old(self).pos as int,
                ),
            decreases self.chars.len() - self.pos,
        {
            self.pos = self.pos + 1;
        }
    }

    /// The level of the heading at the cursor, by peeking without moving.
    fn peek_heading_level(&self) -> (r: u8)
        requires
            self.wf(),
        ensures
            r == sp_peek_level(self.chars@, self.pos as int),
    {
        let ghost s = self.chars@;
        let mut level: u8 = 0;
        let mut temp_pos: usize = self.pos;
        while temp_pos < self.chars.len() && self.chars[temp_pos] == '#' && level < 6
            invariant
                self.wf(),
                s == self.chars@,
                self.pos <= temp_pos <= self.chars.len(),
                0 <= level <= 6,
                sp_scan_hashes(s, self.pos as int, 0) == sp_scan_hashes(
                    s,
                    temp_pos as int,
                    level as int,
                ),
            decreases self.chars.len() - temp_pos,
        {
            level = level + 1;
            temp_pos = temp_pos + 1;
        }
        level
    }

    /// Consumes the maximal plain-text run at the cursor.
    fn parse_text_until(&mut self, in_link: bool) -> (t: String)
        requires
            old(self).wf(),
        ensures
            final(self).wf(),
            final(self).chars == old(self).chars,
            t@ == sp_text(old(self).chars@, old(self).pos as int, in_link),
            final(self).pos == old(self).pos + t@.len(),
    {
        let ghost s = self.chars@;
        let ghost i0 = self.pos as int;
        let mut acc: Vec<char> = Vec::new();
        while self.pos < self.chars.len() && !text_stop(self.chars[self.pos], in_link)
            invariant
                self.wf(),
                self.chars == old(self).chars,
                s == self.chars@,
                i0 == old(self).pos as int,
                self.pos as int == i0 + acc@.len(),
                sp_text(s, i0, in_link) == acc@ + sp_text(s, self.pos as int, in_link),
            decreases self.chars.len() - self.pos,
        {
            let ghost p = self.pos as int;
            let ghost acc0 = acc@;
            acc.push(self.chars[self.pos]);
            self.pos = self.pos + 1;
            proof {
                assert(sp_text(s, p, in_link) == seq![s[p]] + sp_text(s, p + 1, in_link));
                assert(acc0 + (seq![s[p]] + sp_text(s, p + 1, in_link)) =~= acc@ + sp_text(
                    s,
                    p + 1,
                    in_link,
                ));
            }
        }
        proof {
            assert(sp_text(s, self.pos as int, in_link) =~= Seq::<char>::empty());
            assert(acc@ + Seq::<char>::empty() =~= acc@);
        }
        chars_to_string(&acc)
    }

    /// Consumes a bold span; the cursor stands on its opening `**`.
    fn parse_bold(&mut self) -> (r: Result<InlineNode, ParseError>)
        requires
            old(self).wf(),
            old(self).pos + 2 <= old(self).chars.len(),
            old(self).chars@[old(self).pos as int] == '*',
            old(self).chars@[old(self).pos as int + 1] == '*',
        ensures
            final(self).wf(),
            final(self).chars == old(self).chars,
            match sp_bold(old(self).chars@, old(self).pos as int) {
                Ok(p) => r matches Ok(n) && n@ == p.0 && final(self).pos == p.1,
                Err(e) => r matches Err(x) && x@ == e,
            },
        decreases old(self).chars.len() - old(self).pos, 0int,
    {
        let ghost s = self.chars@;
        let ghost i0 = self.pos as int;
        let start_pos = self.pos;
        self.advance();
        self.advance();
        let mut children: Vec<InlineNode> = Vec::new();
        proof {
            lemma_cons_items_nil(sp_bold_items(s, i0 + 2, i0));
            assert(inlines_model(children@) =~= Seq::<Inline>::empty());
        }
        while !self.is_eof()
            invariant
                self.wf(),
                self.chars == old(self).chars,
                s == self.chars@,
                i0 == old(self).pos as int,
                start_pos as int == i0,
                i0 + 2 <= self.pos as int <= s.len(),
                sp_bold(s, i0) == (match cons_items(
                    inlines_model(children@),
                    sp_bold_items(s, self.pos as int, i0),
                ) {
                    Ok(p) => Ok::<(Inline, int), PErr>((Inline::Bold(p.0), p.1)),
                    Err(e) => Err(e),
                }),
            decreases s.len() - self.pos,
        {
            let ghost p = self.pos as int;
            let ghost ch0 = children@;
            if self.at_bold_delim() {
                self.advance();
                self.advance();
                proof {
                    assert(sp_bold_items(s, p, i0) == Ok::<_, PErr>((
                        Seq::<Inline>::empty(),
                        p + 2,
                    )));
                    assert(inlines_model(children@) + Seq::<Inline>::empty() =~= inlines_model(
                        children@,
                    ));
                }
                return Ok(InlineNode::Bold(children));
            }
            if self.peek() == Some('\n') {
                return Err(
                    ParseError::UnclosedDelimiter {
                        delimiter: bold_delim_string(),
                        position: start_pos,
                    },
                );
            }
            if self.peek() == Some('*') {
                let r1 = self.parse_italic();
                proof {
                    lemma_italic_bounds(s, p);
                }
                match r1 {
                    Ok(node) => {
                        proof {
                            lemma_inlines_model_push(ch0, node);
                        }
                        children.push(node);
                        proof {
                            assert(inlines_model(ch0).push(node@) =~= inlines_model(ch0) + seq![
                                node@,
                            ]);
                            lemma_cons_items_assoc(
                                inlines_model(ch0),
                                seq![node@],
                                sp_bold_items(s, self.pos as int, i0),
                            );
                        }
                    },
                    Err(e) => {
                        return Err(e);
                    },
                }
            } else if self.peek() == Some('[') {
                let r1 = self.parse_link();
                proof {
                    lemma_link_bounds(s, p);
                }
                match r1 {
                    Ok(node) => {
                        proof {
                            lemma_inlines_model_push(ch0, node);
                        }
                        children.push(node);
                        proof {
                            assert(inlines_model(ch0).push(node@) =~= inlines_model(ch0) + seq![
                                node@,
                            ]);
                            lemma_cons_items_assoc(
                                inlines_model(ch0),
                                seq![node@],
                                sp_bold_items(s, self.pos as int, i0),
                            );
                        }
                    },
                    Err(e) => {
                        return Err(e);
                    },
                }
            } else {
                let t = self.parse_text_until(false);
                proof {
                    lemma_text_bounds(s, p, false);
                    assert(t@.len() > 0);
                    assert(clip(s.len() as int, p, p + t@.len()) == p + t@.len());
                    lemma_inlines_model_push(ch0, InlineNode::Text(t));
                }
                let ghost tm = t@;
                children.push(InlineNode::Text(t));
                proof {
                    assert(inlines_model(ch0).push(Inline::Text(tm)) =~= inlines_model(ch0)
                        + seq![Inline::Text(tm)]);
                    lemma_cons_items_assoc(
                        inlines_model(ch0),
                        seq![Inline::Text(tm)],
                        sp_bold_items(s, self.pos as int, i0),
                    );
                }
            }
        }
        Err(ParseError::UnclosedDelimiter { delimiter: bold_delim_string(), position: start_pos })
    }

    /// Consumes an italic span; the cursor stands on its opening `*`.
    fn parse_italic(&mut self) -> (r: Result<InlineNode, ParseError>)
        requires
            old(self).wf(),
            old(self).pos < old(self).chars.len(),
        ensures
            final(self).wf(),
            final(self).chars == old(self).chars,
            match sp_italic(old(self).chars@, old(self).pos as int) {
                Ok(p) => r matches Ok(n) && n@ == p.0 && final(self).pos == p.1,
                Err(e) => r matches Err(x) && x@ == e,
            },
        decreases old(self).chars.len() - old(self).pos, 1int,
    {
        let ghost s = self.chars@;
        let ghost i0 = self.pos as int;
        let start_pos = self.pos;
        self.advance();
        let mut children: Vec<InlineNode> = Vec::new();
        proof {
            lemma_cons_items_nil(sp_italic_items(s, i0 + 1, i0));
            assert(inlines_model(children@) =~= Seq::<Inline>::empty());
        }
        while !self.is_eof()
            invariant
                self.wf(),
                self.chars == old(self).chars,
                s == self.chars@,
                i0 == old(self).pos as int,
                start_pos as int == i0,
                i0 + 1 <= self.pos as int <= s.len(),
                sp_italic(s, i0) == (match cons_items(
                    inlines_model(children@),
                    sp_italic_items(s, self.pos as int, i0),
                ) {
                    Ok(p) => Ok::<(Inline, int), PErr>((Inline::Italic(p.0), p.1)),
                    Err(e) => Err(e),
                }),
            decreases s.len() - self.pos,
        {
            let ghost p = self.pos as int;
            let ghost ch0 = children@;
            if self.peek() == Some('*') && !self.at_bold_delim() {
                self.advance();
                proof {
                    assert(sp_italic_items(s, p, i0) == Ok::<_, PErr>((
                        Seq::<Inline>::empty(),
                        p + 1,
                    )));
                    assert(inlines_model(children@) + Seq::<Inline>::empty() =~= inlines_model(
                        children@,
                    ));
                }
                return Ok(InlineNode::Italic(children));
            }
            if self.peek() == Some('\n') {
                return Err(
                    ParseError::UnclosedDelimiter {
                        delimiter: italic_delim_string(),
                        position: start_pos,
                    },
                );
            }
            if self.at_bold_delim() {
                let r1 = self.parse_bold();
                proof {
                    lemma_bold_bounds(s, p);
                }
                match r1 {
                    Ok(node) => {
                        proof {
                            lemma_inlines_model_push(ch0, node);
                        }
                        children.push(node);
                        proof {
                            assert(inlines_model(ch0).push(node@) =~= inlines_model(ch0) + seq![
                                node@,
                            ]);
                            lemma_cons_items_assoc(
                                inlines_model(ch0),
                                seq![node@],
                                sp_italic_items(s, self.pos as int, i0),
                            );
                        }
                    },
                    Err(e) => {
                        return Err(e);
                    },
                }
            } else if self.peek() == Some('[') {
                let r1 = self.parse_link();
                proof {
                    lemma_link_bounds(s, p);
                }
                match r1 {
                    Ok(node) => {
                        proof {
                            lemma_inlines_model_push(ch0, node);
                        }
                        children.push(node);
                        proof {
                            assert(inlines_model(ch0).push(node@) =~= inlines_model(ch0) + seq![
                                node@,
                            ]);
                            lemma_cons_items_assoc(
                                inlines_model(ch0),
                                seq![node@],
                                sp_italic_items(s, self.pos as int, i0),
                            );
                        }
                    },
                    Err(e) => {
                        return Err(e);
                    },
                }
            } else {
                let t = self.parse_text_until(false);
                proof {
                    lemma_text_bounds(s, p, false);
                    assert(t@.len() > 0);
                    assert(clip(s.len() as int, p, p + t@.len()) == p + t@.len());
                    lemma_inlines_model_push(ch0, InlineNode::Text(t));
                }
                let ghost tm = t@;
                children.push(InlineNode::Text(t));
                proof {
                    assert(inlines_model(ch0).push(Inline::Text(tm)) =~= inlines_model(ch0)
                        + seq![Inline::Text(tm)]);
                    lemma_cons_items_assoc(
                        inlines_model(ch0),
                        seq![Inline::Text(tm)],
                        sp_italic_items(s, self.pos as int, i0),
                    );
                }
            }
        }
        Err(
            ParseError::UnclosedDelimiter {
                delimiter: italic_delim_string(),
                position: start_pos,
            },
        )
    }

    /// Consumes a link; the cursor stands on its opening `[`.
    fn parse_link(&mut self) -> (r: Result<InlineNode, ParseError>)
        requires
            old(self).wf(),
            old(self).pos < old(self).chars.len(),
        ensures
            final(self).wf(),
            final(self).chars == old(self).chars,
            match sp_link(old(self).chars@, old(self).pos as int) {
                Ok(p) => r matches Ok(n) && n@ == p.0 && final(self).pos == p.1,
                Err(e) => r matches Err(x) && x@ == e,
            },
        decreases old(self).chars.len() - old(self).pos, 2int,
    {
        let ghost s = self.chars@;
        let ghost i0 = self.pos as int;
        let start_pos = self.pos;
        self.advance();
        let mut text: Vec<InlineNode> = Vec::new();
        proof {
            lemma_cons_items_nil(sp_link_items(s, i0 + 1, i0));
            assert(inlines_model(text@) =~= Seq::<Inline>::empty());
        }
        while !self.is_eof() && self.peek() != Some(']')
            invariant
                self.wf(),
                self.chars == old(self).chars,
                s == self.chars@,
                i0 == old(self).pos as int,
                start_pos as int == i0,
                i0 + 1 <= self.pos as int <= s.len(),
                sp_link_items(s, i0 + 1, i0) == cons_items(
                    inlines_model(text@),
                    sp_link_items(s, self.pos as int, i0),
                ),
            decreases s.len() - self.pos,
        {
            let ghost p = self.pos as int;
            let ghost ch0 = text@;
            if self.peek() == Some('\n') {
                return Err(ParseError::MalformedLink { position: start_pos });
            }
            if self.at_bold_delim() {
                let r1 = self.parse_bold();
                proof {
                    lemma_bold_bounds(s, p);
                }
                match r1 {
                    Ok(node) => {
                        proof {
                            lemma_inlines_model_push(ch0, node);
                        }
                        text.push(node);
                        proof {
                            assert(inlines_model(ch0).push(node@) =~= inlines_model(ch0) + seq![
                                node@,
                            ]);
                            lemma_cons_items_assoc(
                                inlines_model(ch0),
                                seq![node@],
                                sp_link_items(s, self.pos as int, i0),
                            );
                        }
                    },
                    Err(e) => {
                        return Err(e);
                    },
                }
            } else if self.peek() == Some('*') {
                let r1 = self.parse_italic();
                proof {
                    lemma_italic_bounds(s, p);
                }
                match r1 {
                    Ok(node) => {
                        proof {
                            lemma_inlines_model_push(ch0, node);
                        }
                        text.push(node);
                        proof {
                            assert(inlines_model(ch0).push(node@) =~= inlines_model(ch0) + seq![
                                node@,
                            ]);
                            lemma_cons_items_assoc(
                                inlines_model(ch0),
                                seq![node@],
                                sp_link_items(s, self.pos as int, i0),
                            );
                        }
                    },
                    Err(e) => {
                        return Err(e);
                    },
                }
            } else {
                let t = self.parse_text_until(true);
                proof {
                    lemma_text_bounds(s, p, true);
                    assert(t@.len() > 0);
                    assert(clip(s.len() as int, p, p + t@.len()) == p + t@.len());
                    lemma_inlines_model_push(ch0, InlineNode::Text(t));
                }
                let ghost tm = t@;
                text.push(InlineNode::Text(t));
                proof {
                    assert(inlines_model(ch0).push(Inline::Text(tm)) =~= inlines_model(ch0)
                        + seq![Inline::Text(tm)]);
                    lemma_cons_items_assoc(
                        inlines_model(ch0),
                        seq![Inline::Text(tm)],
                        sp_link_items(s, self.pos as int, i0),
                    );
                }
            }
        }
        proof {
            assert(sp_link_items(s, self.pos as int, i0) == Ok::<_, PErr>((
                Seq::<Inline>::empty(),
                self.pos as int,
            )));
            assert(inlines_model(text@) + Seq::<Inline>::empty() =~= inlines_model(text@));
        }
        if self.peek() != Some(']') {
            return Err(ParseError::MalformedLink { position: start_pos });
        }
        self.advance();
        if self.peek() != Some('(') {
            return Err(ParseError::MalformedLink { position: start_pos });
        }
        self.advance();
        let ghost u0 = self.pos as int;
        let mut url: Vec<char> = Vec::new();
        while !self.is_eof() && self.peek() != Some(')')
            invariant
                self.wf(),
                self.chars == old(self).chars,
                s == self.chars@,
                i0 == old(self).pos as int,
                start_pos as int == i0,
                u0 <= self.pos as int <= s.len(),
                sp_link(s, i0) == (match sp_link_url(s, self.pos as int, i0) {
                    Ok(p) => Ok::<(Inline, int), PErr>((
                        Inline::Link { text: inlines_model(text@), url: sp_trim(url@ + p.0) },
                        p.1,
                    )),
                    Err(e) => Err(e),
                }),
            decreases s.len() - self.pos,
        {
            let ghost p = self.pos as int;
            let ghost url0 = url@;
            if self.peek() == Some('\n') {
                return Err(ParseError::MalformedLink { position: start_pos });
            }
            let c = self.advance();
            match c {
                Some(ch) => {
                    url.push(ch);
                },
                None => {
                    proof {
                        assert(false);
                    }
                },
            }
            proof {
                assert(sp_link_url(s, p, i0) == (match sp_link_url(s, p + 1, i0) {
                    Ok(q) => Ok::<(Seq<char>, int), PErr>((seq![s[p]] + q.0, q.1)),
                    Err(e) => Err(e),
                }));
                match sp_link_url(s, p + 1, i0) {
                    Ok(q) => {
                        assert(url0 + (seq![s[p]] + q.0) =~= url@ + q.0);
                    },
                    Err(_) => (),
                }
            }
        }
        if self.peek() != Some(')') {
            return Err(ParseError::MalformedLink { position: start_pos });
        }
        self.advance();
        proof {
            assert(url@ + Seq::<char>::empty() =~= url@);
        }
        let trimmed = crate::text::trim_chars(&url);
        let url_string = chars_to_string(&trimmed);
        Ok(InlineNode::Link { text, url: url_string })
    }

    /// Consumes the inline content of one line, up to a newline or the end of
    /// input.
    fn parse_inline_content(&mut self) -> (r: Result<Vec<InlineNode>, ParseError>)
        requires
            old(self).wf(),
        ensures
            final(self).wf(),
            final(self).chars == old(self).chars,
            match sp_inline_items(old(self).chars@, old(self).pos as int) {
                Ok(p) => r matches Ok(v) && inlines_model(v@) == p.0 && final(self).pos == p.1,
                Err(e) => r matches Err(x) && x@ == e,
            },
    {
        let ghost s = self.chars@;
        let ghost i0 = self.pos as int;
        let mut nodes: Vec<InlineNode> = Vec::new();
        proof {
            lemma_cons_items_nil(sp_inline_items(s, i0));
            assert(inlines_model(nodes@) =~= Seq::<Inline>::empty());
        }
        while !self.is_eof() && self.peek() != Some('\n')
            invariant
                self.wf(),
                self.chars == old(self).chars,
                s == self.chars@,
                i0 == old(self).pos as int,
                i0 <= self.pos as int <= s.len(),
                sp_inline_items(s, i0) == cons_items(
                    inlines_model(nodes@),
                    sp_inline_items(s, self.pos as int),
                ),
            decreases s.len() - self.pos,
        {
            let ghost p = self.pos as int;
            let ghost ch0 = nodes@;
            if self.at_bold_delim() {
                let r1 = self.parse_bold();
                proof {
                    lemma_bold_bounds(s, p);
                }
                match r1 {
                    Ok(node) => {
                        proof {
                            lemma_inlines_model_push(ch0, node);
                        }
                        nodes.push(node);
                        proof {
                            assert(inlines_model(ch0).push(node@) =~= inlines_model(ch0) + seq![
                                node@,
                            ]);
                            lemma_cons_items_assoc(
                                inlines_model(ch0),
                                seq![node@],
                                sp_inline_items(s, self.pos as int),
                            );
                        }
                    },
                    Err(e) => {
                        return Err(e);
                    },
                }
            } else if self.peek() == Some('*') {
                let r1 = self.parse_italic();
                proof {
                    lemma_italic_bounds(s, p);
                }
                match r1 {
                    Ok(node) => {
                        proof {
                            lemma_inlines_model_push(ch0, node);
                        }
                        nodes.push(node);
                        proof {
                            assert(inlines_model(ch0).push(node@) =~= inlines_model(ch0) + seq![
                                node@,
                            ]);
                            lemma_cons_items_assoc(
                                inlines_model(ch0),
                                seq![node@],
                                sp_inline_items(s, self.pos as int),
                            );
                        }
                    },
                    Err(e) => {
                        return Err(e);
                    },
                }
            } else if self.peek() == Some('[') {
                let r1 = self.parse_link();
                proof {
                    lemma_link_bounds(s, p);
                }
                match r1 {
                    Ok(node) => {
                        proof {
                            lemma_inlines_model_push(ch0, node);
                        }
                        nodes.push(node);
                        proof {
                            assert(inlines_model(ch0).push(node@) =~= inlines_model(ch0) + seq![
                                node@,
                            ]);
                            lemma_cons_items_assoc(
                                inlines_model(ch0),
                                seq![node@],
                                sp_inline_items(s, self.pos as int),
                            );
                        }
                    },
                    Err(e) => {
                        return Err(e);
                    },
                }
            } else {
                let t = self.parse_text_until(false);
                proof {
                    lemma_text_bounds(s, p, false);
                    assert(t@.len() > 0);
                    lemma_inlines_model_push(ch0, InlineNode::Text(t));
                }
                let ghost tm = t@;
                nodes.push(InlineNode::Text(t));
                proof {
                    assert(inlines_model(ch0).push(Inline::Text(tm)) =~= inlines_model(ch0)
                        + seq![Inline::Text(tm)]);
                    lemma_cons_items_assoc(
                        inlines_model(ch0),
                        seq![Inline::Text(tm)],
                        sp_inline_items(s, self.pos as int),
                    );
                }
            }
        }
        proof {
            assert(sp_inline_items(s, self.pos as int) == Ok::<_, PErr>((
                Seq::<Inline>::empty(),
                self.pos as int,
            )));
            assert(inlines_model(nodes@) + Seq::<Inline>::empty() =~= inlines_model(nodes@));
        }
        Ok(nodes)
    }

    /// Consumes an image block; the cursor stands on its opening `![`.
    fn parse_image_block(&mut self) -> (r: Result<BlockNode, ParseError>)
        requires
            old(self).wf(),
            old(self).pos + 2 <= old(self).chars.len(),
            old(self).chars@[old(self).pos as int] == '!',
            old(self).chars@[old(self).pos as int + 1] == '[',
        ensures
            final(self).wf(),
            final(self).chars == old(self).chars,
            match sp_image(old(self).chars@, old(self).pos as int) {
                Ok(p) => r matches Ok(b) && b@ == p.0 && final(self).pos == p.1,
                Err(e) => r matches Err(x) && x@ == e,
            },
    {
        let ghost s = self.chars@;
        let ghost i0 = self.pos as int;
        proof {
            reveal(sp_image);
        }
        let start_pos = self.pos;
        self.advance();
        self.advance();
        let mut alt: Vec<char> = Vec::new();
        loop
            invariant_except_break
                self.wf(),
                self.chars == old(self).chars,
                s == self.chars@,
                i0 == old(self).pos as int,
                start_pos as int == i0,
                i0 + 2 <= self.pos as int <= s.len(),
                sp_image_alt(s, i0 + 2) == (
                    alt@ + sp_image_alt(s, self.pos as int).0,
                    sp_image_alt(s, self.pos as int).1,
                ),
            ensures
                self.wf(),
                self.chars == old(self).chars,
                s == self.chars@,
                i0 == old(self).pos as int,
                start_pos as int == i0,
                i0 + 2 <= self.pos as int <= s.len() + 1,
                sp_image_alt(s, i0 + 2) == (alt@, self.pos as int),
            decreases s.len() - self.pos,
        {
            let ghost p = self.pos as int;
            let ghost alt0 = alt@;
            match self.peek() {
                None => {
                    proof {
                        assert(alt0 + Seq::<char>::empty() =~= alt0);
                    }
                    break ;
                },
                Some(ch) => {
                    if ch == '\\' {
                        self.advance();
                        match self.peek() {
                            Some(next_ch) => {
                                alt.push(next_ch);
                                self.advance();
                                proof {
                                    let (t, j) = sp_image_alt(s, p + 2);
                                    assert(sp_image_alt(s, p) == (seq![s[p + 1]] + t, j));
                                    assert(alt0 + (seq![s[p + 1]] + t) =~= alt@ + t);
                                }
                            },
                            None => {
                                proof {
                                    assert(sp_image_alt(s, p) == (
                                        Seq::<char>::empty(),
                                        p + 1,
                                    ));
                                    assert(alt0 + Seq::<char>::empty() =~= alt0);
                                }
                            },
                        }
                    } else if ch == ']' {
                        self.advance();
                        proof {
                            assert(sp_image_alt(s, p) == (Seq::<char>::empty(), p + 1));
                            assert(alt0 + Seq::<char>::empty() =~= alt0);
                        }
                        break ;
                    } else {
                        alt.push(ch);
                        self.advance();
                        proof {
                            let (t, j) = sp_image_alt(s, p + 1);
                            assert(sp_image_alt(s, p) == (seq![s[p]] + t, j));
                            assert(alt0 + (seq![s[p]] + t) =~= alt@ + t);
                        }
                    }
                },
            }
        }
        if self.peek() != Some('(') {
            return Err(ParseError::MalformedImage { position: start_pos });
        }
        self.advance();
        let ghost am = alt@;
        let alt_text = chars_to_string(&alt);
        let mut url: Vec<char> = Vec::new();
        loop
            invariant_except_break
                self.wf(),
                self.chars == old(self).chars,
                s == self.chars@,
                i0 == old(self).pos as int,
                start_pos as int == i0,
                am == alt_text@,
                0 <= self.pos as int <= s.len(),
                sp_image(s, i0) == (match sp_image_url(s, self.pos as int, i0) {
                    Ok(p) => Ok::<(Block, int), PErr>((
                        Block::Image { alt_text: am, url: sp_trim(url@ + p.0) },
                        if p.1 < s.len() && s[p.1] == '\n' {
                            p.1 + 1
                        } else {
                            p.1
                        },
                    )),
                    Err(e) => Err(e),
                }),
            ensures
                self.wf(),
                self.chars == old(self).chars,
                s == self.chars@,
                i0 == old(self).pos as int,
                start_pos as int == i0,
                am == alt_text@,
                0 <= self.pos as int <= s.len(),
                sp_image(s, i0) == Ok::<(Block, int), PErr>((
                    Block::Image { alt_text: am, url: sp_trim(url@) },
                    if self.pos < s.len() && s[self.pos as int] == '\n' {
                        self.pos as int + 1
                    } else {
                        self.pos as int
                    },
                )),
            decreases s.len() - self.pos,
        {
            let ghost p = self.pos as int;
            let ghost url0 = url@;
            match self.peek() {
                None => {
                    proof {
                        assert(sp_image_url(s, p, i0) == Ok::<(Seq<char>, int), PErr>((
                            Seq::<char>::empty(),
                            p,
                        )));
                        assert(url0 + Seq::<char>::empty() =~= url0);
                    }
                    break ;
                },
                Some(ch) => {
                    if ch == ')' {
                        self.advance();
                        proof {
                            assert(sp_image_url(s, p, i0) == Ok::<(Seq<char>, int), PErr>((
                                Seq::<char>::empty(),
                                p + 1,
                            )));
                            assert(url0 + Seq::<char>::empty() =~= url0);
                        }
                        break ;
                    }
                    if ch == '\n' {
                        return Err(ParseError::MalformedImage { position: start_pos });
                    }
                    url.push(ch);
                    self.advance();
                    proof {
                        assert(sp_image_url(s, p, i0) == (match sp_image_url(s, p + 1, i0) {
                            Ok(q) => Ok::<(Seq<char>, int), PErr>((seq![s[p]] + q.0, q.1)),
                            Err(e) => Err(e),
                        }));
                        match sp_image_url(s, p + 1, i0) {
                            Ok(q) => {
                                assert(url0 + (seq![s[p]] + q.0) =~= url@ + q.0);
                            },
                            Err(_) => (),
                        }
                    }
                },
            }
        }
        let trimmed = crate::text::trim_chars(&url);
        let url_string = chars_to_string(&trimmed);
        if self.peek() == Some('\n') {
            self.advance();
        }
        Ok(BlockNode::Image { alt_text, url: url_string })
    }

    /// Consumes a paragraph: lines of inline content joined by line breaks,
    /// ending at a blank line, a heading, or the end of input.
    #[verifier::rlimit(60)]
    fn parse_paragraph(&mut self) -> (r: Result<BlockNode, ParseError>)
        requires
            old(self).wf(),
        ensures
            final(self).wf(),
            final(self).chars == old(self).chars,
            match sp_paragraph(old(self).chars@, old(self).pos as int) {
                Ok(p) => r matches Ok(b) && b@ == p.0 && final(self).pos == p.1,
                Err(e) => r matches Err(x) && x@ == e,
            },
    {
        let ghost s = self.chars@;
        let ghost i0 = self.pos as int;
        let mut inline_nodes: Vec<InlineNode> = Vec::new();
        let mut first_line = true;
        proof {
            lemma_paragraph_unfold(s, i0);
            assert(inlines_model(inline_nodes@) =~= Seq::<Inline>::empty());
            match sp_para_lines(s, i0, false) {
                Ok(p) => {
                    assert(Seq::<Inline>::empty() + p.0 =~= p.0);
                },
                Err(_) => (),
            }
        }
        loop
            invariant_except_break
                self.wf(),
                self.chars == old(self).chars,
                s == self.chars@,
                i0 == old(self).pos as int,
                i0 <= self.pos as int <= s.len(),
                sp_para_lines(s, i0, false) == (match sp_para_lines(
                    s,
                    self.pos as int,
                    !first_line,
                ) {
                    Ok(p) => Ok::<(Seq<Inline>, int), PErr>((
                        inlines_model(inline_nodes@) + p.0,
                        p.1,
                    )),
                    Err(e) => Err(e),
                }),
            ensures
                self.wf(),
                self.chars == old(self).chars,
                s == self.chars@,
                i0 == old(self).pos as int,
                sp_para_lines(s, i0, false) == Ok::<(Seq<Inline>, int), PErr>((
                    inlines_model(inline_nodes@),
                    self.pos as int,
                )),
            decreases s.len() - self.pos,
        {
            let ghost p = self.pos as int;
            let ghost nodes0 = inline_nodes@;
            let ghost had = !first_line;
            let line_res = self.parse_inline_content();
            proof {
                lemma_inline_items_bounds(s, p);
            }
            let mut line_content = match line_res {
                Ok(v) => v,
                Err(e) => {
                    proof {
                        lemma_paragraph_unfold(s, i0);
                    }
                    return Err(e);
                },
            };
            let ghost lm = inlines_model(line_content@);
            if !line_content.is_empty() {
                proof {
                    crate::ast::lemma_inlines_model(line_content@);
                }
                if !first_line {
                    proof {
                        lemma_inlines_model_push(inline_nodes@, InlineNode::LineBreak);
                    }
                    inline_nodes.push(InlineNode::LineBreak);
                }
                proof {
                    crate::ast::lemma_inlines_model_add(inline_nodes@, line_content@);
                }
                inline_nodes.append(&mut line_content);
                first_line = false;
            } else {
                proof {
                    crate::ast::lemma_inlines_model(line_content@);
                }
            }
            proof {
                // relate the collected nodes to the spec prefix of this line
                let prefix = if lm.len() == 0 {
                    Seq::<Inline>::empty()
                } else if had {
                    seq![Inline::LineBreak] + lm
                } else {
                    lm
                };
                assert(inlines_model(inline_nodes@) =~= inlines_model(nodes0) + prefix);
            }
            if self.peek() == Some('\n') {
                self.advance();
                let two = self.peek() == Some('\n');
                let ate = self.is_eof();
                let hd = self.is_heading();
                if two || ate || hd {
                    proof {
                        let prefix = if lm.len() == 0 {
                            Seq::<Inline>::empty()
                        } else if had {
                            seq![Inline::LineBreak] + lm
                        } else {
                            lm
                        };
                        assert(inlines_model(nodes0) + prefix =~= inlines_model(inline_nodes@));
                    }
                    break ;
                }
                proof {
                    let prefix = if lm.len() == 0 {
                        Seq::<Inline>::empty()
                    } else if had {
                        seq![Inline::LineBreak] + lm
                    } else {
                        lm
                    };
                    match sp_para_lines(s, self.pos as int, !first_line) {
                        Ok(q) => {
                            assert(inlines_model(nodes0) + (prefix + q.0) =~= inlines_model(
                                inline_nodes@,
                            ) + q.0);
                        },
                        Err(_) => (),
                    }
                }
            } else {
                break ;
            }
        }
        proof {
            lemma_paragraph_unfold(s, i0);
        }
        Ok(BlockNode::Paragraph(inline_nodes))
    }

    /// Consumes one block: an image if and only if `![` stands at the cursor,
    /// else a paragraph.
    fn parse_block(&mut self) -> (r: Result<BlockNode, ParseError>)
        requires
            old(self).wf(),
        ensures
            final(self).wf(),
            final(self).chars == old(self).chars,
            match sp_block(old(self).chars@, old(self).pos as int) {
                Ok(p) => r matches Ok(b) && b@ == p.0 && final(self).pos == p.1,
                Err(e) => r matches Err(x) && x@ == e,
            },
    {
        let ghost s = self.chars@;
        let ghost i0 = self.pos as int;
        if self.peek() == Some('!') && self.peek_at(1) == Some('[') {
            proof {
                lemma_block_image(s, i0);
            }
            return self.parse_image_block();
        }
        proof {
            lemma_block_para(s, i0);
        }
        self.parse_paragraph()
    }

    /// Consumes the heading markers at the cursor; zero markers is an invalid
    /// heading level.
    fn parse_heading_level(&mut self) -> (r: Result<u8, ParseError>)
        requires
            old(self).wf(),
        ensures
            final(self).wf(),
            final(self).chars == old(self).chars,
            ({
                let (lv, j) = sp_scan_hashes(old(self).chars@, old(self).pos as int, 0);
                if lv < 1 {
                    r matches Err(e) && e@ == (crate::ast::PErr::InvalidHeadingLevel {
                        level: 0u8,
                    }) && final(self).pos == old(self).pos
                } else {
                    r matches Ok(lev) && lev == lv && final(self).pos == j
                }
            }),
    {
        let ghost s = self.chars@;
        let ghost i0 = self.pos as int;
        let mut level: u8 = 0;
        while self.pos < self.chars.len() && self.chars[self.pos] == '#' && level < 6
            invariant
                self.wf(),
                self.chars == old(self).chars,
                s == self.chars@,
                i0 == old(self).pos as int,
                old(self).pos <= self.pos <= self.chars.len(),
                0 <= level <= 6,
                level == 0 ==> self.pos == old(self).pos,
                sp_scan_hashes(s, i0, 0) == sp_scan_hashes(s, self.pos as int, level as int),
            decreases self.chars.len() - self.pos,
        {
            level = level + 1;
            self.pos = self.pos + 1;
        }
        if level < 1 {
            Err(ParseError::InvalidHeadingLevel { level })
        } else {
            Ok(level)
        }
    }

    /// Consumes a heading line: markers, an optional space, the
    /// inline-formatted title, and a trailing newline if present.
    fn parse_heading_line(&mut self) -> (r: Result<(u8, Vec<InlineNode>), ParseError>)
        requires
            old(self).wf(),
        ensures
            final(self).wf(),
            final(self).chars == old(self).chars,
            match sp_heading_line(old(self).chars@, old(self).pos as int) {
                Ok(p) => r matches Ok(t) && t.0 == p.0 && inlines_model(t.1@) == p.1
                    && final(self).pos == p.2,
                Err(e) => r matches Err(x) && x@ == e,
            },
    {
        proof {
            reveal(sp_heading_line);
        }
        let level = match self.parse_heading_level() {
            Ok(lv) => lv,
            Err(e) => {
                return Err(e);
            },
        };
        if self.peek() == Some(' ') {
            self.advance();
        }
        let title = match self.parse_inline_content() {
            Ok(t) => t,
            Err(e) => {
                return Err(e);
            },
        };
        if self.peek() == Some('\n') {
            self.advance();
        }
        Ok((level, title))
    }

    /// Consumes a section: its heading line, then content blocks and
    /// subsections of strictly greater level.
    #[verifier::rlimit(100)]
    fn parse_section_tree(&mut self, _parent_level: Option<u8>) -> (r: Result<Section, ParseError>)
        requires
            old(self).wf(),
        ensures
            final(self).wf(),
            final(self).chars == old(self).chars,
            match sp_section(old(self).chars@, old(self).pos as int) {
                Ok(p) => r matches Ok(sec) && sec@ == p.0 && final(self).pos == p.1,
                Err(e) => r matches Err(x) && x@ == e,
            },
        decreases old(self).chars.len() - old(self).pos,
    {
        let ghost s = self.chars@;
        let ghost i0 = self.pos as int;
        proof {
            lemma_section_unfold(s, i0);
        }
        let (level, title) = match self.parse_heading_line() {
            Ok(t) => t,
            Err(e) => {
                return Err(e);
            },
        };
        proof {
            lemma_heading_line_bounds(s, i0);
        }
        let ghost j0 = self.pos as int;
        let ghost tm = inlines_model(title@);
        let mut content: Vec<BlockNode> = Vec::new();
        let mut subsections: Vec<Section> = Vec::new();
        proof {
            assert(blocks_model(content@) =~= Seq::<Block>::empty());
            assert(secs_model(subsections@) =~= Seq::<Sec>::empty());
            match sp_section_items(s, j0, level) {
                Ok(p) => {
                    assert(Seq::<Block>::empty() + p.0 =~= p.0);
                    assert(Seq::<Sec>::empty() + p.1 =~= p.1);
                },
                Err(_) => (),
            }
        }
        loop
            invariant_except_break
                self.wf(),
                self.chars == old(self).chars,
                s == self.chars@,
                i0 == old(self).pos as int,
                i0 < j0 <= self.pos as int <= s.len(),
                sp_section(s, i0) == (match sp_section_items(s, self.pos as int, level) {
                    Ok(p) => Ok::<(Sec, int), PErr>((
                        Sec {
                            level,
                            title: tm,
                            content: blocks_model(content@) + p.0,
                            subsections: secs_model(subsections@) + p.1,
                        },
                        p.2,
                    )),
                    Err(e) => Err(e),
                }),
            ensures
                self.wf(),
                self.chars == old(self).chars,
                s == self.chars@,
                i0 == old(self).pos as int,
                i0 < self.pos as int <= s.len(),
                sp_section(s, i0) == Ok::<(Sec, int), PErr>((
                    Sec {
                        level,
                        title: tm,
                        content: blocks_model(content@),
                        subsections: secs_model(subsections@),
                    },
                    self.pos as int,
                )),
            decreases s.len() - self.pos,
        {
            let ghost p = self.pos as int;
            let ghost c0 = content@;
            let ghost sub0 = subsections@;
            self.skip_empty_lines();
            proof {
                lemma_skip_blanks_bounds(s, p);
            }
            let ghost i1 = self.pos as int;
            if self.is_eof() {
                proof {
                    lemma_section_items_end(s, p, level);
                    assert(blocks_model(c0) + Seq::<Block>::empty() =~= blocks_model(c0));
                    assert(secs_model(sub0) + Seq::<Sec>::empty() =~= secs_model(sub0));
                }
                break ;
            }
            if self.is_heading() {
                let next_level = self.peek_heading_level();
                if next_level > level {
                    proof {
                        lemma_section_items_sub(s, p, level);
                    }
                    let sub_res = self.parse_section_tree(Some(level));
                    proof {
                        lemma_section_bounds(s, i1);
                    }
                    match sub_res {
                        Ok(sub) => {
                            proof {
                                crate::ast::lemma_secs_model_push(sub0, sub);
                            }
                            subsections.push(sub);
                            proof {
                                assert(secs_model(sub0).push(sub@) =~= secs_model(sub0) + seq![
                                    sub@,
                                ]);
                                match sp_section_items(s, self.pos as int, level) {
                                    Ok(q) => {
                                        assert(secs_model(sub0) + (seq![sub@] + q.1)
                                            =~= secs_model(subsections@) + q.1);
                                    },
                                    Err(_) => (),
                                }
                            }
                        },
                        Err(e) => {
                            return Err(e);
                        },
                    }
                } else {
                    proof {
                        lemma_section_items_end(s, p, level);
                        assert(blocks_model(c0) + Seq::<Block>::empty() =~= blocks_model(c0));
                        assert(secs_model(sub0) + Seq::<Sec>::empty() =~= secs_model(sub0));
                    }
                    break ;
                }
            } else {
                proof {
                    lemma_section_items_block(s, p, level);
                }
                let block_res = self.parse_block();
                proof {
                    lemma_block_bounds(s, i1);
                }
                match block_res {
                    Ok(block) => {
                        proof {
                            crate::ast::lemma_blocks_model_push(c0, block);
                        }
                        content.push(block);
                        proof {
                            assert(blocks_model(c0).push(block@) =~= blocks_model(c0) + seq![
                                block@,
                            ]);
                            match sp_section_items(s, self.pos as int, level) {
                                Ok(q) => {
                                    assert(blocks_model(c0) + (seq![block@] + q.0)
                                        =~= blocks_model(content@) + q.0);
                                },
                                Err(_) => (),
                            }
                        }
                    },
                    Err(e) => {
                        return Err(e);
                    },
                }
            }
        }
        Ok(Section { level, title, content, subsections })
    }

    /// Consumes every section from the cursor to the end of input.
    #[verifier::rlimit(100)]
    fn parse_all_sections(&mut self) -> (r: Result<Vec<Section>, ParseError>)
        requires
            old(self).wf(),
        ensures
            final(self).wf(),
            final(self).chars == old(self).chars,
            match sp_all_sections(old(self).chars@, old(self).pos as int) {
                Ok(p) => r matches Ok(v) && secs_model(v@) == p.0 && final(self).pos == p.1,
                Err(e) => r matches Err(x) && x@ == e,
            },
    {
        let ghost s = self.chars@;
        let ghost i0 = self.pos as int;
        let mut sections: Vec<Section> = Vec::new();
        proof {
            assert(secs_model(sections@) =~= Seq::<Sec>::empty());
            match sp_all_sections(s, i0) {
                Ok(p) => {
                    assert(Seq::<Sec>::empty() + p.0 =~= p.0);
                },
                Err(_) => (),
            }
        }
        loop
            invariant_except_break
                self.wf(),
                self.chars == old(self).chars,
                s == self.chars@,
                i0 == old(self).pos as int,
                i0 <= self.pos as int <= s.len(),
                sp_all_sections(s, i0) == (match sp_all_sections(s, self.pos as int) {
                    Ok(p) => Ok::<(Seq<Sec>, int), PErr>((secs_model(sections@) + p.0, p.1)),
                    Err(e) => Err(e),
                }),
            ensures
                self.wf(),
                self.chars == old(self).chars,
                s == self.chars@,
                i0 == old(self).pos as int,
                sp_all_sections(s, i0) == Ok::<(Seq<Sec>, int), PErr>((
                    secs_model(sections@),
                    self.pos as int,
                )),
            decreases s.len() - self.pos,
        {
            let ghost p = self.pos as int;
            let ghost sec0 = sections@;
            self.skip_empty_lines();
            proof {
                lemma_skip_blanks_bounds(s, p);
            }
            let ghost i1 = self.pos as int;
            if self.is_eof() {
                proof {
                    assert(secs_model(sec0) + Seq::<Sec>::empty() =~= secs_model(sec0));
                }
                break ;
            }
            if self.is_heading() {
                let sec_res = self.parse_section_tree(None);
                proof {
                    lemma_section_bounds(s, i1);
                }
                match sec_res {
                    Ok(section) => {
                        proof {
                            crate::ast::lemma_secs_model_push(sec0, section);
                        }
                        sections.push(section);
                        proof {
                            assert(secs_model(sec0).push(section@) =~= secs_model(sec0) + seq![
                                section@,
                            ]);
                            match sp_all_sections(s, self.pos as int) {
                                Ok(q) => {
                                    assert(secs_model(sec0) + (seq![section@] + q.0)
                                        =~= secs_model(sections@) + q.0);
                                },
                                Err(_) => (),
                            }
                        }
                    },
                    Err(e) => {
                        return Err(e);
                    },
                }
            } else {
                proof {
                    assert(secs_model(sec0) + Seq::<Sec>::empty() =~= secs_model(sec0));
                }
                break ;
            }
        }
        Ok(sections)
    }

    /// Consumes the whole document: preamble blocks until the first heading,
    /// then all sections.
    #[verifier::rlimit(100)]
    fn parse_document(&mut self) -> (r: Result<Document, ParseError>)
        requires
            old(self).wf(),
        ensures
            final(self).wf(),
            final(self).chars == old(self).chars,
            match sp_document_items(old(self).chars@, old(self).pos as int) {
                Ok(p) => r matches Ok(d) && d@.content == p.0 && d@.sections == p.1
                    && final(self).pos == p.2,
                Err(e) => r matches Err(x) && x@ == e,
            },
    {
        let ghost s = self.chars@;
        let ghost i0 = self.pos as int;
        let mut content: Vec<BlockNode> = Vec::new();
        let mut sections: Vec<Section> = Vec::new();
        proof {
            assert(blocks_model(content@) =~= Seq::<Block>::empty());
            assert(secs_model(sections@) =~= Seq::<Sec>::empty());
            match sp_document_items(s, i0) {
                Ok(p) => {
                    assert(Seq::<Block>::empty() + p.0 =~= p.0);
                },
                Err(_) => (),
            }
        }
        loop
            invariant_except_break
                self.wf(),
                self.chars == old(self).chars,
                s == self.chars@,
                i0 == old(self).pos as int,
                i0 <= self.pos as int <= s.len(),
                sections@ == Seq::<Section>::empty(),
                sp_document_items(s, i0) == (match sp_document_items(s, self.pos as int) {
                    Ok(p) => Ok::<(Seq<Block>, Seq<Sec>, int), PErr>((
                        blocks_model(content@) + p.0,
                        p.1,
                        p.2,
                    )),
                    Err(e) => Err(e),
                }),
            ensures
                self.wf(),
                self.chars == old(self).chars,
                s == self.chars@,
                i0 == old(self).pos as int,
                sp_document_items(s, i0) == Ok::<(Seq<Block>, Seq<Sec>, int), PErr>((
                    blocks_model(content@),
                    secs_model(sections@),
                    self.pos as int,
                )),
            decreases s.len() - self.pos,
        {
            let ghost p = self.pos as int;
            let ghost c0 = content@;
            self.skip_empty_lines();
            proof {
                lemma_skip_blanks_bounds(s, p);
            }
            let ghost i1 = self.pos as int;
            if self.is_eof() {
                proof {
                    assert(blocks_model(c0) + Seq::<Block>::empty() =~= blocks_model(c0));
                    assert(secs_model(sections@) =~= Seq::<Sec>::empty());
                }
                break ;
            }
            if self.is_heading() {
                let secs_res = self.parse_all_sections();
                match secs_res {
                    Ok(secs) => {
                        sections = secs;
                        proof {
                            match sp_all_sections(s, i1) {
                                Ok(q) => {
                                    assert(blocks_model(c0) + Seq::<Block>::empty()
                                        =~= blocks_model(c0));
                                },
                                Err(_) => (),
                            }
                        }
                        break ;
                    },
                    Err(e) => {
                        return Err(e);
                    },
                }
            } else {
                let block_res = self.parse_block();
                proof {
                    lemma_block_bounds(s, i1);
                }
                match block_res {
                    Ok(block) => {
                        proof {
                            crate::ast::lemma_blocks_model_push(c0, block);
                        }
                        content.push(block);
                        proof {
                            assert(blocks_model(c0).push(block@) =~= blocks_model(c0) + seq![
                                block@,
                            ]);
                            match sp_document_items(s, self.pos as int) {
                                Ok(q) => {
                                    assert(blocks_model(c0) + (seq![block@] + q.0)
                                        =~= blocks_model(content@) + q.0);
                                },
                                Err(_) => (),
                            }
                        }
                    },
                    Err(e) => {
                        return Err(e);
                    },
                }
            }
        }
        Ok(Document { content, sections })
    }

    /// Parses the whole input into a document tree: the main entry point of
    /// the parsing engine.
    pub fn parse(text: &str) -> (r: Result<Document, ParseError>)
        ensures
            match sp_parse(text@) {
                Ok(d) => r matches Ok(doc) && doc@ == d,
                Err(e) => r matches Err(x) && x@ == e,
            },
    {
        let mut parser = Self::new();
        parser.chars = str_chars(text);
        parser.pos = 0;
        parser.parse_document()
    }
}

impl Default for MarkdownParser {
    /// A parser with no input.
    fn default() -> (r: Self)
        ensures
            r.chars@ == Seq::<char>::empty(),
            r.pos == 0,
    {
        MarkdownParser::new()
    }
}

} // verus!
