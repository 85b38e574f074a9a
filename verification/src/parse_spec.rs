//! Functional specification of the parsing engine.
//!
//! Each function mirrors one scanning step of the executable parser over the
//! ghost character sequence: it takes the input `s` and a cursor position and
//! yields the parsed mirror value together with the position after it, or the
//! parse failure. The executable parser's contracts equate its results with
//! these functions.

use vstd::prelude::*;
use crate::ast::{Block, Doc, Inline, PErr, Sec};
use crate::text::sp_trim;

verus! {

/// The position after any run of blank lines at `i`.
pub open spec fn sp_skip_blanks(s: Seq<char>, i: int) -> int
    decreases s.len() - i,
{
    if 0 <= i < s.len() && s[i] == '\n' {
        sp_skip_blanks(s, i + 1)
    } else {
        i
    }
}

/// Skipping blank lines moves the cursor forward, at most to the end.
pub proof fn lemma_skip_blanks_bounds(s: Seq<char>, i: int)
    requires
        0 <= i <= s.len(),
    ensures
        i <= sp_skip_blanks(s, i) <= s.len(),
    decreases s.len() - i,
{
    if i < s.len() && s[i] == '\n' {
        lemma_skip_blanks_bounds(s, i + 1);
    }
}

/// Whether a heading marker stands at `i`.
pub open spec fn sp_is_heading(s: Seq<char>, i: int) -> bool {
    0 <= i < s.len() && s[i] == '#'
}

/// Counts consecutive `#` characters from `i`, capped at six, continuing a
/// count of `level`; yields the count and the position after the markers.
pub open spec fn sp_scan_hashes(s: Seq<char>, i: int, level: int) -> (int, int)
    decreases s.len() - i,
{
    if 0 <= i < s.len() && s[i] == '#' && level < 6 {
        sp_scan_hashes(s, i + 1, level + 1)
    } else {
        (level, i)
    }
}

/// The heading level that a peek at `i` reports: consecutive `#` markers,
/// capped at six.
pub open spec fn sp_peek_level(s: Seq<char>, i: int) -> int {
    sp_scan_hashes(s, i, 0).0
}

/// Scanning heading markers advances by exactly the count it adds.
pub proof fn lemma_scan_hashes_bounds(s: Seq<char>, i: int, level: int)
    requires
        0 <= i <= s.len(),
        0 <= level <= 6,
    ensures
        ({
            let (lv, j) = sp_scan_hashes(s, i, level);
            &&& i <= j <= s.len()
            &&& level <= lv <= 6
            &&& j - i == lv - level
        }),
    decreases s.len() - i,
{
    if i < s.len() && s[i] == '#' && level < 6 {
        lemma_scan_hashes_bounds(s, i + 1, level + 1);
    }
}

/// Whether `c` ends a plain-text run. Inside link text a `]` ends the run;
/// elsewhere a `[` does.
pub open spec fn sp_text_stop(c: char, in_link: bool) -> bool {
    c == '\n' || c == '*' || (if in_link {
        c == ']'
    } else {
        c == '['
    })
}

/// The maximal plain-text run at `i`: characters up to the next delimiter,
/// newline, or the end of input.
pub open spec fn sp_text(s: Seq<char>, i: int, in_link: bool) -> Seq<char>
    decreases s.len() - i,
{
    if 0 <= i < s.len() && !sp_text_stop(s[i], in_link) {
        seq![s[i]] + sp_text(s, i + 1, in_link)
    } else {
        Seq::empty()
    }
}

/// A plain-text run fits within the input.
pub proof fn lemma_text_bounds(s: Seq<char>, i: int, in_link: bool)
    requires
        0 <= i <= s.len(),
    ensures
        i + sp_text(s, i, in_link).len() <= s.len(),
    decreases s.len() - i,
{
    if i < s.len() && !sp_text_stop(s[i], in_link) {
        lemma_text_bounds(s, i + 1, in_link);
    }
}

/// The cursor after a step that claims to have moved from `i` to `j`: `j`
/// where the claim is sound, the next position otherwise. The soundness
/// lemmas below show the fallback is never taken, so the fallback only serves
/// the termination measure of the mutually recursive definitions.
pub open spec fn clip(len: int, i: int, j: int) -> int {
    if i < j && j <= len {
        j
    } else {
        i + 1
    }
}

/// A bold span at `i` (which holds `**`): its inline children and the
/// position after the closing `**`.
pub open spec fn sp_bold(s: Seq<char>, i: int) -> Result<(Inline, int), PErr>
    decreases s.len() - i, 0int,
{
    if i + 2 <= s.len() {
        match sp_bold_items(s, i + 2, i) {
            Ok((children, j)) => Ok((Inline::Bold(children), j)),
            Err(e) => Err(e),
        }
    } else {
        Err(PErr::UnclosedDelimiter { delimiter: seq!['*', '*'], position: i })
    }
}

/// The children of a bold span from `i` up to its closing `**`.
pub open spec fn sp_bold_items(s: Seq<char>, i: int, start: int) -> Result<(Seq<Inline>, int), PErr>
    decreases s.len() - i, 3int,
{
    if !(0 <= i < s.len()) {
        Err(PErr::UnclosedDelimiter { delimiter: seq!['*', '*'], position: start })
    } else if i + 2 <= s.len() && s[i] == '*' && s[i + 1] == '*' {
        Ok((Seq::empty(), i + 2))
    } else if s[i] == '\n' {
        Err(PErr::UnclosedDelimiter { delimiter: seq!['*', '*'], position: start })
    } else if s[i] == '*' {
        match sp_italic(s, i) {
            Ok((node, j)) => match sp_bold_items(s, clip(s.len() as int, i, j), start) {
                Ok((rest, k)) => Ok((seq![node] + rest, k)),
                Err(e) => Err(e),
            },
            Err(e) => Err(e),
        }
    } else if s[i] == '[' {
        match sp_link(s, i) {
            Ok((node, j)) => match sp_bold_items(s, clip(s.len() as int, i, j), start) {
                Ok((rest, k)) => Ok((seq![node] + rest, k)),
                Err(e) => Err(e),
            },
            Err(e) => Err(e),
        }
    } else {
        let t = sp_text(s, i, false);
        match sp_bold_items(s, clip(s.len() as int, i, i + t.len()), start) {
            Ok((rest, k)) => Ok((seq![Inline::Text(t)] + rest, k)),
            Err(e) => Err(e),
        }
    }
}

/// An italic span at `i` (which holds a `*` that is not part of `**`): its
/// inline children and the position after the closing `*`.
pub open spec fn sp_italic(s: Seq<char>, i: int) -> Result<(Inline, int), PErr>
    decreases s.len() - i, 1int,
{
    if i + 1 <= s.len() {
        match sp_italic_items(s, i + 1, i) {
            Ok((children, j)) => Ok((Inline::Italic(children), j)),
            Err(e) => Err(e),
        }
    } else {
        Err(PErr::UnclosedDelimiter { delimiter: seq!['*'], position: i })
    }
}

/// The children of an italic span from `i` up to its closing single `*`.
pub open spec fn sp_italic_items(s: Seq<char>, i: int, start: int) -> Result<
    (Seq<Inline>, int),
    PErr,
>
    decreases s.len() - i, 3int,
{
    if !(0 <= i < s.len()) {
        Err(PErr::UnclosedDelimiter { delimiter: seq!['*'], position: start })
    } else if s[i] == '*' && !(i + 2 <= s.len() && s[i + 1] == '*') {
        Ok((Seq::empty(), i + 1))
    } else if s[i] == '\n' {
        Err(PErr::UnclosedDelimiter { delimiter: seq!['*'], position: start })
    } else if i + 2 <= s.len() && s[i] == '*' && s[i + 1] == '*' {
        match sp_bold(s, i) {
            Ok((node, j)) => match sp_italic_items(s, clip(s.len() as int, i, j), start) {
                Ok((rest, k)) => Ok((seq![node] + rest, k)),
                Err(e) => Err(e),
            },
            Err(e) => Err(e),
        }
    } else if s[i] == '[' {
        match sp_link(s, i) {
            Ok((node, j)) => match sp_italic_items(s, clip(s.len() as int, i, j), start) {
                Ok((rest, k)) => Ok((seq![node] + rest, k)),
                Err(e) => Err(e),
            },
            Err(e) => Err(e),
        }
    } else {
        let t = sp_text(s, i, false);
        match sp_italic_items(s, clip(s.len() as int, i, i + t.len()), start) {
            Ok((rest, k)) => Ok((seq![Inline::Text(t)] + rest, k)),
            Err(e) => Err(e),
        }
    }
}

/// A link at `i` (which holds `[`): its inline text, trimmed URL, and the
/// position after the closing `)`.
pub open spec fn sp_link(s: Seq<char>, i: int) -> Result<(Inline, int), PErr>
    decreases s.len() - i, 2int,
{
    if i + 1 <= s.len() {
        match sp_link_items(s, i + 1, i) {
            Ok((text, j)) => if j < s.len() && s[j] == ']' {
                if j + 1 < s.len() && s[j + 1] == '(' {
                    match sp_link_url(s, j + 2, i) {
                        Ok((url, k)) => Ok((Inline::Link { text, url: sp_trim(url) }, k)),
                        Err(e) => Err(e),
                    }
                } else {
                    Err(PErr::MalformedLink { position: i })
                }
            } else {
                Err(PErr::MalformedLink { position: i })
            },
            Err(e) => Err(e),
        }
    } else {
        Err(PErr::MalformedLink { position: i })
    }
}

/// The inline text of a link from `i` up to (not including) the closing `]`.
pub open spec fn sp_link_items(s: Seq<char>, i: int, start: int) -> Result<
    (Seq<Inline>, int),
    PErr,
>
    decreases s.len() - i, 3int,
{
    if !(0 <= i < s.len()) {
        Ok((Seq::empty(), i))
    } else if s[i] == ']' {
        Ok((Seq::empty(), i))
    } else if s[i] == '\n' {
        Err(PErr::MalformedLink { position: start })
    } else if i + 2 <= s.len() && s[i] == '*' && s[i + 1] == '*' {
        match sp_bold(s, i) {
            Ok((node, j)) => match sp_link_items(s, clip(s.len() as int, i, j), start) {
                Ok((rest, k)) => Ok((seq![node] + rest, k)),
                Err(e) => Err(e),
            },
            Err(e) => Err(e),
        }
    } else if s[i] == '*' {
        match sp_italic(s, i) {
            Ok((node, j)) => match sp_link_items(s, clip(s.len() as int, i, j), start) {
                Ok((rest, k)) => Ok((seq![node] + rest, k)),
                Err(e) => Err(e),
            },
            Err(e) => Err(e),
        }
    } else {
        let t = sp_text(s, i, true);
        match sp_link_items(s, clip(s.len() as int, i, i + t.len()), start) {
            Ok((rest, k)) => Ok((seq![Inline::Text(t)] + rest, k)),
            Err(e) => Err(e),
        }
    }
}

/// The URL of a link from `i` up to the closing `)`; a newline or the end of
/// input before it is a malformed link.
pub open spec fn sp_link_url(s: Seq<char>, i: int, start: int) -> Result<(Seq<char>, int), PErr>
    decreases s.len() - i,
{
    if !(0 <= i < s.len()) {
        Err(PErr::MalformedLink { position: start })
    } else if s[i] == ')' {
        Ok((Seq::empty(), i + 1))
    } else if s[i] == '\n' {
        Err(PErr::MalformedLink { position: start })
    } else {
        match sp_link_url(s, i + 1, start) {
            Ok((url, k)) => Ok((seq![s[i]] + url, k)),
            Err(e) => Err(e),
        }
    }
}

/// The inline content of one line starting at `i`: nodes up to (not
/// including) the newline, or up to the end of input.
pub open spec fn sp_inline_items(s: Seq<char>, i: int) -> Result<(Seq<Inline>, int), PErr>
    decreases s.len() - i,
{
    if !(0 <= i < s.len()) || s[i] == '\n' {
        Ok((Seq::empty(), i))
    } else if i + 2 <= s.len() && s[i] == '*' && s[i + 1] == '*' {
        match sp_bold(s, i) {
            Ok((node, j)) => {
                proof {
                    lemma_bold_bounds(s, i);
                }
                match sp_inline_items(s, j) {
                    Ok((rest, k)) => Ok((seq![node] + rest, k)),
                    Err(e) => Err(e),
                }
            },
            Err(e) => Err(e),
        }
    } else if s[i] == '*' {
        match sp_italic(s, i) {
            Ok((node, j)) => {
                proof {
                    lemma_italic_bounds(s, i);
                }
                match sp_inline_items(s, j) {
                    Ok((rest, k)) => Ok((seq![node] + rest, k)),
                    Err(e) => Err(e),
                }
            },
            Err(e) => Err(e),
        }
    } else if s[i] == '[' {
        match sp_link(s, i) {
            Ok((node, j)) => {
                proof {
                    lemma_link_bounds(s, i);
                }
                match sp_inline_items(s, j) {
                    Ok((rest, k)) => Ok((seq![node] + rest, k)),
                    Err(e) => Err(e),
                }
            },
            Err(e) => Err(e),
        }
    } else {
        let t = sp_text(s, i, false);
        proof {
            lemma_text_bounds(s, i, false);
            assert(t.len() > 0);
        }
        match sp_inline_items(s, i + t.len()) {
            Ok((rest, k)) => Ok((seq![Inline::Text(t)] + rest, k)),
            Err(e) => Err(e),
        }
    }
}

/// A line's inline scan never retreats, and stands still only at a newline
/// or the end of input.
pub proof fn lemma_inline_items_bounds(s: Seq<char>, i: int)
    ensures
        sp_inline_items(s, i) matches Ok(p) ==> i <= p.1 && (p.1 <= s.len() || p.1 == i) && (p.1
            == i ==> !(0 <= i < s.len()) || s[i] == '\n'),
    decreases s.len() - i,
{
    if !(0 <= i < s.len()) || s[i] == '\n' {
    } else if i + 2 <= s.len() && s[i] == '*' && s[i + 1] == '*' {
        lemma_bold_bounds(s, i);
        match sp_bold(s, i) {
            Ok(p) => lemma_inline_items_bounds(s, p.1),
            Err(_) => (),
        }
    } else if s[i] == '*' {
        lemma_italic_bounds(s, i);
        match sp_italic(s, i) {
            Ok(p) => lemma_inline_items_bounds(s, p.1),
            Err(_) => (),
        }
    } else if s[i] == '[' {
        lemma_link_bounds(s, i);
        match sp_link(s, i) {
            Ok(p) => lemma_inline_items_bounds(s, p.1),
            Err(_) => (),
        }
    } else {
        let t = sp_text(s, i, false);
        lemma_text_bounds(s, i, false);
        lemma_inline_items_bounds(s, i + t.len());
    }
}

/// The inline nodes of a paragraph from `i` on: lines joined by `LineBreak`
/// nodes, ending at a blank line, a heading, or the end of input. `have`
/// records whether an earlier line already contributed content.
pub open spec fn sp_para_lines(s: Seq<char>, i: int, have: bool) -> Result<(Seq<Inline>, int), PErr>
    decreases s.len() - i,
{
    match sp_inline_items(s, i) {
        Err(e) => Err(e),
        Ok((line, j)) => {
            let prefix = if line.len() == 0 {
                Seq::<Inline>::empty()
            } else if have {
                seq![Inline::LineBreak] + line
            } else {
                line
            };
            let have2 = have || line.len() > 0;
            if 0 <= j < s.len() && s[j] == '\n' {
                if j + 1 >= s.len() || s[j + 1] == '\n' || s[j + 1] == '#' {
                    Ok((prefix, j + 1))
                } else {
                    proof {
                        lemma_inline_items_bounds(s, i);
                    }
                    match sp_para_lines(s, j + 1, have2) {
                        Ok((rest, k)) => Ok((prefix + rest, k)),
                        Err(e) => Err(e),
                    }
                }
            } else {
                Ok((prefix, j))
            }
        },
    }
}

/// A paragraph consumes at least one character wherever input remains.
pub proof fn lemma_para_lines_bounds(s: Seq<char>, i: int, have: bool)
    ensures
        sp_para_lines(s, i, have) matches Ok(p) ==> i <= p.1 && (p.1 <= s.len() || p.1 == i) && (0
            <= i < s.len() ==> i < p.1),
    decreases s.len() - i,
{
    lemma_inline_items_bounds(s, i);
    match sp_inline_items(s, i) {
        Err(_) => (),
        Ok((line, j)) => {
            if 0 <= j < s.len() && s[j] == '\n' {
                if j + 1 >= s.len() || s[j + 1] == '\n' || s[j + 1] == '#' {
                } else {
                    lemma_para_lines_bounds(s, j + 1, have || line.len() > 0);
                }
            }
        },
    }
}

/// A paragraph block at `i`.
#[verifier::opaque]
pub open spec fn sp_paragraph(s: Seq<char>, i: int) -> Result<(Block, int), PErr> {
    match sp_para_lines(s, i, false) {
        Ok((nodes, j)) => Ok((Block::Paragraph(nodes), j)),
        Err(e) => Err(e),
    }
}

/// A paragraph is its joined lines.
pub proof fn lemma_paragraph_unfold(s: Seq<char>, i: int)
    ensures
        sp_paragraph(s, i) == (match sp_para_lines(s, i, false) {
            Ok(p) => Ok::<(Block, int), PErr>((Block::Paragraph(p.0), p.1)),
            Err(e) => Err(e),
        }),
{
    reveal(sp_paragraph);
}

/// The alt text of an image from `i` up to an unescaped `]`: a backslash
/// escapes the following character, which is emitted literally. Yields the
/// text and the position after the `]` (or the end of input).
pub open spec fn sp_image_alt(s: Seq<char>, i: int) -> (Seq<char>, int)
    decreases s.len() - i,
{
    if !(0 <= i < s.len()) {
        (Seq::empty(), i)
    } else if s[i] == '\\' {
        if i + 1 < s.len() {
            let (t, j) = sp_image_alt(s, i + 2);
            (seq![s[i + 1]] + t, j)
        } else {
            (Seq::empty(), i + 1)
        }
    } else if s[i] == ']' {
        (Seq::empty(), i + 1)
    } else {
        let (t, j) = sp_image_alt(s, i + 1);
        (seq![s[i]] + t, j)
    }
}

/// The alt-text scan stays within the input.
pub proof fn lemma_image_alt_bounds(s: Seq<char>, i: int)
    requires
        0 <= i <= s.len(),
    ensures
        i <= sp_image_alt(s, i).1 <= s.len(),
    decreases s.len() - i,
{
    if 0 <= i < s.len() {
        if s[i] == '\\' {
            if i + 1 < s.len() {
                lemma_image_alt_bounds(s, i + 2);
            }
        } else if s[i] == ']' {
        } else {
            lemma_image_alt_bounds(s, i + 1);
        }
    }
}

/// The URL of an image from `i` up to the closing `)`; a newline before it is
/// a malformed image, while the end of input ends the URL silently.
pub open spec fn sp_image_url(s: Seq<char>, i: int, start: int) -> Result<(Seq<char>, int), PErr>
    decreases s.len() - i,
{
    if !(0 <= i < s.len()) {
        Ok((Seq::empty(), i))
    } else if s[i] == ')' {
        Ok((Seq::empty(), i + 1))
    } else if s[i] == '\n' {
        Err(PErr::MalformedImage { position: start })
    } else {
        match sp_image_url(s, i + 1, start) {
            Ok((url, k)) => Ok((seq![s[i]] + url, k)),
            Err(e) => Err(e),
        }
    }
}

/// A successful image URL scan stays within the input.
pub proof fn lemma_image_url_bounds(s: Seq<char>, i: int, start: int)
    requires
        0 <= i <= s.len(),
    ensures
        sp_image_url(s, i, start) matches Ok(p) ==> i <= p.1 <= s.len(),
    decreases s.len() - i,
{
    if 0 <= i < s.len() && s[i] != ')' && s[i] != '\n' {
        lemma_image_url_bounds(s, i + 1, start);
    }
}

/// An image block at `i` (which holds `![`): its alt text, trimmed URL, and
/// the position after the block, a trailing newline included.
#[verifier::opaque]
pub open spec fn sp_image(s: Seq<char>, i: int) -> Result<(Block, int), PErr> {
    let (alt, j) = sp_image_alt(s, i + 2);
    if j < s.len() && s[j] == '(' {
        match sp_image_url(s, j + 1, i) {
            Ok((url, k)) => {
                let k2 = if k < s.len() && s[k] == '\n' {
                    k + 1
                } else {
                    k
                };
                Ok((Block::Image { alt_text: alt, url: sp_trim(url) }, k2))
            },
            Err(e) => Err(e),
        }
    } else {
        Err(PErr::MalformedImage { position: i })
    }
}

/// A block at `i`: an image if and only if `![` stands there, else a
/// paragraph.
#[verifier::opaque]
pub open spec fn sp_block(s: Seq<char>, i: int) -> Result<(Block, int), PErr> {
    if i + 2 <= s.len() && s[i] == '!' && s[i + 1] == '[' {
        sp_image(s, i)
    } else {
        sp_paragraph(s, i)
    }
}

pub proof fn lemma_block_bounds(s: Seq<char>, i: int)
    requires
        0 <= i <= s.len(),
    ensures
        sp_block(s, i) matches Ok(p) ==> i <= p.1 <= s.len() && (i < s.len() ==> i < p.1),
{
    reveal(sp_block);
    reveal(sp_image);
    reveal(sp_paragraph);
    if i + 2 <= s.len() && s[i] == '!' && s[i + 1] == '[' {
        lemma_image_alt_bounds(s, i + 2);
        let (alt, j) = sp_image_alt(s, i + 2);
        if j < s.len() && s[j] == '(' {
            lemma_image_url_bounds(s, j + 1, i);
        }
    } else {
        lemma_para_lines_bounds(s, i, false);
    }
}

/// A block beginning with `![` is an image block.
pub proof fn lemma_block_image(s: Seq<char>, i: int)
    requires
        i + 2 <= s.len(),
        s[i] == '!',
        s[i + 1] == '[',
    ensures
        sp_block(s, i) == sp_image(s, i),
{
    reveal(sp_block);
}

/// Any other block is a paragraph.
pub proof fn lemma_block_para(s: Seq<char>, i: int)
    requires
        !(i + 2 <= s.len() && s[i] == '!' && s[i + 1] == '['),
    ensures
        sp_block(s, i) == sp_paragraph(s, i),
{
    reveal(sp_block);
}

/// A heading line at `i`: its level (capped at six), inline-formatted title,
/// and the position after the line, the trailing newline included.
#[verifier::opaque]
pub open spec fn sp_heading_line(s: Seq<char>, i: int) -> Result<(u8, Seq<Inline>, int), PErr> {
    let (lv, j) = sp_scan_hashes(s, i, 0);
    if lv < 1 {
        Err(PErr::InvalidHeadingLevel { level: 0 })
    } else {
        let j2 = if j < s.len() && s[j] == ' ' {
            j + 1
        } else {
            j
        };
        match sp_inline_items(s, j2) {
            Ok((title, k)) => {
                let k2 = if k < s.len() && s[k] == '\n' {
                    k + 1
                } else {
                    k
                };
                Ok((lv as u8, title, k2))
            },
            Err(e) => Err(e),
        }
    }
}

/// A successful heading line consumes at least its marker and yields a
/// level between one and six.
pub proof fn lemma_heading_line_bounds(s: Seq<char>, i: int)
    ensures
        sp_heading_line(s, i) matches Ok(p) ==> 0 <= i < p.2 <= s.len() && 1 <= p.0 <= 6,
{
    reveal(sp_heading_line);
    let (lv, j) = sp_scan_hashes(s, i, 0);
    if 0 <= i <= s.len() {
        lemma_scan_hashes_bounds(s, i, 0);
        if lv >= 1 {
            let j2 = if j < s.len() && s[j] == ' ' {
                j + 1
            } else {
                j
            };
            lemma_inline_items_bounds(s, j2);
        }
    }
}

/// A section at `i` (which holds a heading): the heading line, then blocks
/// and subsections of strictly greater level, ending before a heading whose
/// level does not exceed this one.
pub open spec fn sp_section(s: Seq<char>, i: int) -> Result<(Sec, int), PErr>
    decreases s.len() - i, 0int,
{
    match sp_heading_line(s, i) {
        Err(e) => Err(e),
        Ok((level, title, j)) => {
            proof {
                lemma_heading_line_bounds(s, i);
            }
            match sp_section_items(s, j, level) {
                Ok((content, subs, k)) => Ok(
                    (Sec { level, title, content, subsections: subs }, k),
                ),
                Err(e) => Err(e),
            }
        },
    }
}

/// The body of a section of level `level` from `i` on: content blocks and
/// subsections, up to a heading of level at most `level` or the end of input.
pub open spec fn sp_section_items(s: Seq<char>, i: int, level: u8) -> Result<
    (Seq<Block>, Seq<Sec>, int),
    PErr,
>
    decreases s.len() - i, 1int,
{
    let i1 = sp_skip_blanks(s, i);
    if !(0 <= i1 < s.len()) {
        Ok((Seq::empty(), Seq::empty(), i1))
    } else if s[i1] == '#' {
        if sp_peek_level(s, i1) > level {
            proof {
                if 0 <= i && i <= s.len() {
                    lemma_skip_blanks_bounds(s, i);
                }
            }
            match sp_section(s, i1) {
                Err(e) => Err(e),
                Ok((sub, j)) => match sp_section_items(
                    s,
                    clip(s.len() as int, i1, j),
                    level,
                ) {
                    Ok((content, subs, k)) => Ok((content, seq![sub] + subs, k)),
                    Err(e) => Err(e),
                },
            }
        } else {
            Ok((Seq::empty(), Seq::empty(), i1))
        }
    } else {
        match sp_block(s, i1) {
            Err(e) => Err(e),
            Ok((b, j)) => {
                proof {
                    if 0 <= i && i <= s.len() {
                        lemma_skip_blanks_bounds(s, i);
                    }
                    lemma_block_bounds(s, i1);
                }
                match sp_section_items(s, j, level) {
                    Ok((content, subs, k)) => Ok((seq![b] + content, subs, k)),
                    Err(e) => Err(e),
                }
            },
        }
    }
}

/// A section is its heading line followed by its body items.
pub proof fn lemma_section_unfold(s: Seq<char>, i: int)
    ensures
        sp_section(s, i) == (match sp_heading_line(s, i) {
            Err(e) => Err::<(Sec, int), PErr>(e),
            Ok(h) => (match sp_section_items(s, h.2, h.0) {
                Ok(p) => Ok((
                    Sec { level: h.0, title: h.1, content: p.0, subsections: p.1 },
                    p.2,
                )),
                Err(e) => Err(e),
            }),
        }),
{
}

/// A successful section consumes at least its heading, within the input.
pub proof fn lemma_section_bounds(s: Seq<char>, i: int)
    ensures
        sp_section(s, i) matches Ok(p) ==> i < p.1 <= s.len(),
    decreases s.len() - i, 0int,
{
    lemma_heading_line_bounds(s, i);
    match sp_heading_line(s, i) {
        Err(_) => (),
        Ok((level, title, j)) => {
            lemma_section_items_bounds(s, j, level);
        },
    }
}

/// A section body never retreats, and stays within the input wherever it
/// moved at all.
pub proof fn lemma_section_items_bounds(s: Seq<char>, i: int, level: u8)
    ensures
        sp_section_items(s, i, level) matches Ok(p) ==> i <= p.2 && (p.2 <= s.len() || p.2 == i),
    decreases s.len() - i, 1int,
{
    let i1 = sp_skip_blanks(s, i);
    if 0 <= i && i <= s.len() {
        lemma_skip_blanks_bounds(s, i);
    }
    if !(0 <= i1 < s.len()) {
    } else if s[i1] == '#' {
        if sp_peek_level(s, i1) > level {
            lemma_section_bounds(s, i1);
            match sp_section(s, i1) {
                Err(_) => (),
                Ok((sub, j)) => {
                    lemma_section_items_bounds(s, clip(s.len() as int, i1, j), level);
                },
            }
        }
    } else {
        lemma_block_bounds(s, i1);
        match sp_block(s, i1) {
            Err(_) => (),
            Ok((b, j)) => {
                lemma_section_items_bounds(s, j, level);
            },
        }
    }
}

/// The section body ends here: blank lines lead to the end of input or to a
/// heading of level at most `level`.
pub proof fn lemma_section_items_end(s: Seq<char>, i: int, level: u8)
    requires
        ({
            let i1 = sp_skip_blanks(s, i);
            !(0 <= i1 < s.len()) || (s[i1] == '#' && !(sp_peek_level(s, i1) > level))
        }),
    ensures
        sp_section_items(s, i, level) == Ok::<(Seq<Block>, Seq<Sec>, int), PErr>((
            Seq::empty(),
            Seq::empty(),
            sp_skip_blanks(s, i),
        )),
{
}

/// The section body continues with a subsection: blank lines lead to a
/// heading of strictly greater level.
pub proof fn lemma_section_items_sub(s: Seq<char>, i: int, level: u8)
    requires
        ({
            let i1 = sp_skip_blanks(s, i);
            0 <= i1 < s.len() && s[i1] == '#' && sp_peek_level(s, i1) > level
        }),
    ensures
        sp_section_items(s, i, level) == (match sp_section(s, sp_skip_blanks(s, i)) {
            Ok(q) => (match sp_section_items(s, q.1, level) {
                Ok(p) => Ok::<(Seq<Block>, Seq<Sec>, int), PErr>((p.0, seq![q.0] + p.1, p.2)),
                Err(e) => Err(e),
            }),
            Err(e) => Err(e),
        }),
{
    let i1 = sp_skip_blanks(s, i);
    lemma_section_bounds(s, i1);
}

/// The section body continues with a content block: blank lines lead to
/// content that is not a heading.
pub proof fn lemma_section_items_block(s: Seq<char>, i: int, level: u8)
    requires
        ({
            let i1 = sp_skip_blanks(s, i);
            0 <= i1 < s.len() && s[i1] != '#'
        }),
    ensures
        sp_section_items(s, i, level) == (match sp_block(s, sp_skip_blanks(s, i)) {
            Ok(q) => (match sp_section_items(s, q.1, level) {
                Ok(p) => Ok::<(Seq<Block>, Seq<Sec>, int), PErr>((seq![q.0] + p.0, p.1, p.2)),
                Err(e) => Err(e),
            }),
            Err(e) => Err(e),
        }),
{
}

/// All sections from `i` on: headings parsed into trees until the end of
/// input (or, defensively, content that is not a heading).
pub open spec fn sp_all_sections(s: Seq<char>, i: int) -> Result<(Seq<Sec>, int), PErr>
    decreases s.len() - i,
{
    let i1 = sp_skip_blanks(s, i);
    if !(0 <= i1 < s.len()) {
        Ok((Seq::empty(), i1))
    } else if s[i1] == '#' {
        match sp_section(s, i1) {
            Err(e) => Err(e),
            Ok((sec, j)) => {
                proof {
                    if 0 <= i && i <= s.len() {
                        lemma_skip_blanks_bounds(s, i);
                    }
                    lemma_section_bounds(s, i1);
                }
                match sp_all_sections(s, j) {
                    Ok((rest, k)) => Ok((seq![sec] + rest, k)),
                    Err(e) => Err(e),
                }
            },
        }
    } else {
        Ok((Seq::empty(), i1))
    }
}

/// The whole document from `i` on: preamble blocks until the first heading,
/// then all sections.
pub open spec fn sp_document_items(s: Seq<char>, i: int) -> Result<
    (Seq<Block>, Seq<Sec>, int),
    PErr,
>
    decreases s.len() - i,
{
    let i1 = sp_skip_blanks(s, i);
    if !(0 <= i1 < s.len()) {
        Ok((Seq::empty(), Seq::empty(), i1))
    } else if s[i1] == '#' {
        match sp_all_sections(s, i1) {
            Ok((secs, j)) => Ok((Seq::empty(), secs, j)),
            Err(e) => Err(e),
        }
    } else {
        match sp_block(s, i1) {
            Err(e) => Err(e),
            Ok((b, j)) => {
                proof {
                    if 0 <= i && i <= s.len() {
                        lemma_skip_blanks_bounds(s, i);
                    }
                    lemma_block_bounds(s, i1);
                }
                match sp_document_items(s, j) {
                    Ok((bs, secs, k)) => Ok((seq![b] + bs, secs, k)),
                    Err(e) => Err(e),
                }
            },
        }
    }
}

/// Prefixes already-collected nodes onto the outcome of scanning the rest:
/// the shape of the loop invariants of the executable parser.
pub open spec fn cons_items(
    prefix: Seq<Inline>,
    rest: Result<(Seq<Inline>, int), PErr>,
) -> Result<(Seq<Inline>, int), PErr> {
    match rest {
        Ok((items, j)) => Ok((prefix + items, j)),
        Err(e) => Err(e),
    }
}

pub proof fn lemma_cons_items_nil(rest: Result<(Seq<Inline>, int), PErr>)
    ensures
        cons_items(Seq::empty(), rest) == rest,
{
    match rest {
        Ok((items, j)) => {
            assert(Seq::<Inline>::empty() + items =~= items);
        },
        Err(_) => (),
    }
}

pub proof fn lemma_cons_items_assoc(
    a: Seq<Inline>,
    b: Seq<Inline>,
    rest: Result<(Seq<Inline>, int), PErr>,
)
    ensures
        cons_items(a, cons_items(b, rest)) == cons_items(a + b, rest),
{
    match rest {
        Ok((items, j)) => {
            assert(a + (b + items) =~= (a + b) + items);
        },
        Err(_) => (),
    }
}

/// The document that parsing the whole input yields, or the parse failure.
pub open spec fn sp_parse(s: Seq<char>) -> Result<Doc, PErr> {
    match sp_document_items(s, 0) {
        Ok((content, sections, j)) => Ok(Doc { content, sections }),
        Err(e) => Err(e),
    }
}

/// A successful URL scan ends after its starting position, within the input.
pub proof fn lemma_link_url_bounds(s: Seq<char>, i: int, start: int)
    requires
        0 <= i,
    ensures
        sp_link_url(s, i, start) matches Ok(p) ==> i < p.1 <= s.len(),
    decreases s.len() - i,
{
    if 0 <= i < s.len() && s[i] != ')' && s[i] != '\n' {
        lemma_link_url_bounds(s, i + 1, start);
    }
}

/// A successful bold span ends after its starting position, within the input.
pub proof fn lemma_bold_bounds(s: Seq<char>, i: int)
    requires
        0 <= i,
    ensures
        sp_bold(s, i) matches Ok(p) ==> i < p.1 <= s.len(),
    decreases s.len() - i, 0int,
{
    if i + 2 <= s.len() {
        lemma_bold_items_bounds(s, i + 2, i);
    }
}

/// The scan of a bold span's children advances, within the input.
pub proof fn lemma_bold_items_bounds(s: Seq<char>, i: int, start: int)
    requires
        0 <= i,
    ensures
        sp_bold_items(s, i, start) matches Ok(p) ==> i < p.1 <= s.len(),
    decreases s.len() - i, 3int,
{
    if 0 <= i < s.len() {
        if i + 2 <= s.len() && s[i] == '*' && s[i + 1] == '*' {
        } else if s[i] == '\n' {
        } else if s[i] == '*' {
            lemma_italic_bounds(s, i);
            match sp_italic(s, i) {
                Ok(p) => lemma_bold_items_bounds(s, clip(s.len() as int, i, p.1), start),
                Err(_) => (),
            }
        } else if s[i] == '[' {
            lemma_link_bounds(s, i);
            match sp_link(s, i) {
                Ok(p) => lemma_bold_items_bounds(s, clip(s.len() as int, i, p.1), start),
                Err(_) => (),
            }
        } else {
            let t = sp_text(s, i, false);
            lemma_bold_items_bounds(s, clip(s.len() as int, i, i + t.len()), start);
        }
    }
}

/// A successful italic span ends after its starting position, within the
/// input.
pub proof fn lemma_italic_bounds(s: Seq<char>, i: int)
    requires
        0 <= i,
    ensures
        sp_italic(s, i) matches Ok(p) ==> i < p.1 <= s.len(),
    decreases s.len() - i, 1int,
{
    if i + 1 <= s.len() {
        lemma_italic_items_bounds(s, i + 1, i);
    }
}

/// The scan of an italic span's children advances, within the input.
pub proof fn lemma_italic_items_bounds(s: Seq<char>, i: int, start: int)
    requires
        0 <= i,
    ensures
        sp_italic_items(s, i, start) matches Ok(p) ==> i < p.1 <= s.len(),
    decreases s.len() - i, 3int,
{
    if 0 <= i < s.len() {
        if s[i] == '*' && !(i + 2 <= s.len() && s[i + 1] == '*') {
        } else if s[i] == '\n' {
        } else if i + 2 <= s.len() && s[i] == '*' && s[i + 1] == '*' {
            lemma_bold_bounds(s, i);
            match sp_bold(s, i) {
                Ok(p) => lemma_italic_items_bounds(s, clip(s.len() as int, i, p.1), start),
                Err(_) => (),
            }
        } else if s[i] == '[' {
            lemma_link_bounds(s, i);
            match sp_link(s, i) {
                Ok(p) => lemma_italic_items_bounds(s, clip(s.len() as int, i, p.1), start),
                Err(_) => (),
            }
        } else {
            let t = sp_text(s, i, false);
            lemma_italic_items_bounds(s, clip(s.len() as int, i, i + t.len()), start);
        }
    }
}

/// A successful link ends after its starting position, within the input.
pub proof fn lemma_link_bounds(s: Seq<char>, i: int)
    requires
        0 <= i,
    ensures
        sp_link(s, i) matches Ok(p) ==> i < p.1 <= s.len(),
    decreases s.len() - i, 2int,
{
    if i + 1 <= s.len() {
        lemma_link_items_bounds(s, i + 1, i);
        match sp_link_items(s, i + 1, i) {
            Ok(q) => {
                if q.1 < s.len() && s[q.1] == ']' && q.1 + 1 < s.len() && s[q.1 + 1] == '(' {
                    lemma_link_url_bounds(s, q.1 + 2, i);
                }
            },
            Err(_) => (),
        }
    }
}

/// The scan of a link's text never retreats, and stays within the input
/// wherever it moved at all.
pub proof fn lemma_link_items_bounds(s: Seq<char>, i: int, start: int)
    requires
        0 <= i,
    ensures
        sp_link_items(s, i, start) matches Ok(p) ==> i <= p.1 <= s.len() || (p.1 == i
            && i >= s.len()),
    decreases s.len() - i, 3int,
{
    if 0 <= i < s.len() {
        if s[i] == ']' {
        } else if s[i] == '\n' {
        } else if i + 2 <= s.len() && s[i] == '*' && s[i + 1] == '*' {
            lemma_bold_bounds(s, i);
            match sp_bold(s, i) {
                Ok(p) => lemma_link_items_bounds(s, clip(s.len() as int, i, p.1), start),
                Err(_) => (),
            }
        } else if s[i] == '*' {
            lemma_italic_bounds(s, i);
            match sp_italic(s, i) {
                Ok(p) => lemma_link_items_bounds(s, clip(s.len() as int, i, p.1), start),
                Err(_) => (),
            }
        } else {
            let t = sp_text(s, i, true);
            lemma_link_items_bounds(s, clip(s.len() as int, i, i + t.len()), start);
        }
    }
}

} // verus!
