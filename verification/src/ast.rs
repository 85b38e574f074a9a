//! The document tree produced by the parsing engine and consumed by the
//! rendering engine, together with its ghost model.
//!
//! Each executable type has a ghost mirror whose text is a `Seq<char>` and
//! whose node lists are `Seq`s; the model functions relate the two. All
//! contracts of the parsing and rendering engines are stated over the mirrors.

use vstd::prelude::*;

verus! {

broadcast use vstd::std_specs::vec::axiom_vec_index_decreases;

/// A parse failure. Every failure is fatal: no partial document is returned.
#[derive(Debug, Clone, PartialEq)]
pub enum ParseError {
    UnexpectedEndOfInput { context: String },
    UnclosedDelimiter { delimiter: String, position: usize },
    InvalidHeadingLevel { level: u8 },
    MalformedLink { position: usize },
    MalformedImage { position: usize },
}

/// Ghost mirror of [`ParseError`].
pub ghost enum PErr {
    UnexpectedEndOfInput { context: Seq<char> },
    UnclosedDelimiter { delimiter: Seq<char>, position: int },
    InvalidHeadingLevel { level: u8 },
    MalformedLink { position: int },
    MalformedImage { position: int },
}

impl View for ParseError {
    type V = PErr;

    open spec fn view(&self) -> PErr {
        match self {
            ParseError::UnexpectedEndOfInput { context } => PErr::UnexpectedEndOfInput {
                context: context@,
            },
            ParseError::UnclosedDelimiter { delimiter, position } => PErr::UnclosedDelimiter {
                delimiter: delimiter@,
                position: *position as int,
            },
            ParseError::InvalidHeadingLevel { level } => PErr::InvalidHeadingLevel {
                level: *level,
            },
            ParseError::MalformedLink { position } => PErr::MalformedLink {
                position: *position as int,
            },
            ParseError::MalformedImage { position } => PErr::MalformedImage {
                position: *position as int,
            },
        }
    }
}

/// Inline content of a paragraph, heading title, or link text.
#[derive(Debug)]
pub enum InlineNode {
    /// Plain text
    Text(String),
    /// Line break (single newline within paragraph)
    LineBreak,
    /// Bold text (can contain nested inline nodes)
    Bold(Vec<InlineNode>),
    /// Italic text (can contain nested inline nodes)
    Italic(Vec<InlineNode>),
    /// Link [text](url) - text can contain inline formatting
    Link { text: Vec<InlineNode>, url: String },
}

/// Block-level content: the unit of vertical, blank-line-separated spacing.
#[derive(Debug)]
pub enum BlockNode {
    /// Paragraph containing inline elements
    Paragraph(Vec<InlineNode>),
    /// Image block: ![alt](url)
    Image { alt_text: String, url: String },
}

/// A heading-rooted subtree: its level, inline-formatted title, content
/// blocks, and subsections of strictly greater level.
#[derive(Debug)]
pub struct Section {
    pub level: u8,
    pub title: Vec<InlineNode>,
    pub content: Vec<BlockNode>,
    pub subsections: Vec<Section>,
}

/// Root of the parse tree: preamble blocks before the first heading, then the
/// top-level sections.
#[derive(Debug)]
pub struct Document {
    pub content: Vec<BlockNode>,
    pub sections: Vec<Section>,
}

/// Ghost mirror of [`InlineNode`].
pub ghost enum Inline {
    Text(Seq<char>),
    LineBreak,
    Bold(Seq<Inline>),
    Italic(Seq<Inline>),
    Link { text: Seq<Inline>, url: Seq<char> },
}

/// Ghost mirror of [`BlockNode`].
pub ghost enum Block {
    Paragraph(Seq<Inline>),
    Image { alt_text: Seq<char>, url: Seq<char> },
}

/// Ghost mirror of [`Section`].
pub ghost struct Sec {
    pub level: u8,
    pub title: Seq<Inline>,
    pub content: Seq<Block>,
    pub subsections: Seq<Sec>,
}

/// Ghost mirror of [`Document`].
pub ghost struct Doc {
    pub content: Seq<Block>,
    pub sections: Seq<Sec>,
}

impl InlineNode {
    /// The ghost mirror of this inline node.
    pub open spec fn model(self) -> Inline
        decreases self, 1int,
    {
        match self {
            InlineNode::Text(s) => Inline::Text(s@),
            InlineNode::LineBreak => Inline::LineBreak,
            InlineNode::Bold(children) => Inline::Bold(inlines_model(children@)),
            InlineNode::Italic(children) => Inline::Italic(inlines_model(children@)),
            InlineNode::Link { text, url } => Inline::Link {
                text: inlines_model(text@),
                url: url@,
            },
        }
    }
}

/// The ghost mirror of a sequence of inline nodes.
pub open spec fn inlines_model(s: Seq<InlineNode>) -> Seq<Inline>
    decreases s, 0int,
{
    if s.len() == 0 {
        Seq::empty()
    } else {
        seq![s[0].model()] + inlines_model(s.drop_first())
    }
}

impl BlockNode {
    /// The ghost mirror of this block node.
    pub open spec fn model(self) -> Block {
        match self {
            BlockNode::Paragraph(inlines) => Block::Paragraph(inlines_model(inlines@)),
            BlockNode::Image { alt_text, url } => Block::Image {
                alt_text: alt_text@,
                url: url@,
            },
        }
    }
}

/// The ghost mirror of a sequence of block nodes.
pub open spec fn blocks_model(s: Seq<BlockNode>) -> Seq<Block>
    decreases s,
{
    if s.len() == 0 {
        Seq::empty()
    } else {
        seq![s[0].model()] + blocks_model(s.drop_first())
    }
}

impl Section {
    /// The ghost mirror of this section.
    pub open spec fn model(self) -> Sec
        decreases self, 1int,
    {
        Sec {
            level: self.level,
            title: inlines_model(self.title@),
            content: blocks_model(self.content@),
            subsections: secs_model(self.subsections@),
        }
    }
}

/// The ghost mirror of a sequence of sections.
pub open spec fn secs_model(s: Seq<Section>) -> Seq<Sec>
    decreases s, 0int,
{
    if s.len() == 0 {
        Seq::empty()
    } else {
        seq![s[0].model()] + secs_model(s.drop_first())
    }
}

impl Document {
    /// The ghost mirror of this document.
    pub open spec fn model(self) -> Doc {
        Doc { content: blocks_model(self.content@), sections: secs_model(self.sections@) }
    }
}

impl View for InlineNode {
    type V = Inline;

    open spec fn view(&self) -> Inline {
        self.model()
    }
}

impl View for BlockNode {
    type V = Block;

    open spec fn view(&self) -> Block {
        self.model()
    }
}

impl View for Section {
    type V = Sec;

    open spec fn view(&self) -> Sec {
        self.model()
    }
}

impl View for Document {
    type V = Doc;

    open spec fn view(&self) -> Doc {
        self.model()
    }
}

/// How a sequence of inline nodes and its mirror correspond: same length,
/// elementwise models.
pub proof fn lemma_inlines_model(s: Seq<InlineNode>)
    ensures
        inlines_model(s).len() == s.len(),
        forall|i: int| 0 <= i < s.len() ==> inlines_model(s)[i] == s[i].model(),
    decreases s.len(),
{
    if s.len() > 0 {
        lemma_inlines_model(s.drop_first());
    }
}

/// Appending an inline node appends its model.
pub proof fn lemma_inlines_model_push(s: Seq<InlineNode>, x: InlineNode)
    ensures
        inlines_model(s.push(x)) == inlines_model(s).push(x.model()),
    decreases s.len(),
{
    lemma_inlines_model(s);
    lemma_inlines_model(s.push(x));
    assert(inlines_model(s.push(x)) =~= inlines_model(s).push(x.model()));
}

/// Concatenating inline node sequences concatenates their models.
pub proof fn lemma_inlines_model_add(s: Seq<InlineNode>, t: Seq<InlineNode>)
    ensures
        inlines_model(s + t) == inlines_model(s) + inlines_model(t),
{
    lemma_inlines_model(s);
    lemma_inlines_model(t);
    lemma_inlines_model(s + t);
    assert(inlines_model(s + t) =~= inlines_model(s) + inlines_model(t));
}

/// How a sequence of block nodes and its mirror correspond.
pub proof fn lemma_blocks_model(s: Seq<BlockNode>)
    ensures
        blocks_model(s).len() == s.len(),
        forall|i: int| 0 <= i < s.len() ==> blocks_model(s)[i] == s[i].model(),
    decreases s.len(),
{
    if s.len() > 0 {
        lemma_blocks_model(s.drop_first());
    }
}

/// Appending a block node appends its model.
pub proof fn lemma_blocks_model_push(s: Seq<BlockNode>, x: BlockNode)
    ensures
        blocks_model(s.push(x)) == blocks_model(s).push(x.model()),
{
    lemma_blocks_model(s);
    lemma_blocks_model(s.push(x));
    assert(blocks_model(s.push(x)) =~= blocks_model(s).push(x.model()));
}

/// How a sequence of sections and its mirror correspond.
pub proof fn lemma_secs_model(s: Seq<Section>)
    ensures
        secs_model(s).len() == s.len(),
        forall|i: int| 0 <= i < s.len() ==> secs_model(s)[i] == s[i].model(),
    decreases s.len(),
{
    if s.len() > 0 {
        lemma_secs_model(s.drop_first());
    }
}

/// Appending a section appends its model.
pub proof fn lemma_secs_model_push(s: Seq<Section>, x: Section)
    ensures
        secs_model(s.push(x)) == secs_model(s).push(x.model()),
{
    lemma_secs_model(s);
    lemma_secs_model(s.push(x));
    assert(secs_model(s.push(x)) =~= secs_model(s).push(x.model()));
}

impl Section {
    /// Creates a section with the given heading level and title and no
    /// content or subsections yet.
    pub fn new(level: u8, title: Vec<InlineNode>) -> (r: Self)
        ensures
            r@ == (Sec {
                level,
                title: inlines_model(title@),
                content: Seq::<Block>::empty(),
                subsections: Seq::<Sec>::empty(),
            }),
    {
        Self { level, title, content: Vec::new(), subsections: Vec::new() }
    }

    /// The heading level of this section.
    pub fn level(&self) -> (r: u8)
        ensures
            r == self@.level,
    {
        self.level
    }

    /// The inline-formatted heading title.
    pub fn title(&self) -> (r: &[InlineNode])
        ensures
            inlines_model(r@) == self@.title,
    {
        self.title.as_slice()
    }

    /// The content blocks appearing before any subsection.
    pub fn content(&self) -> (r: &[BlockNode])
        ensures
            blocks_model(r@) == self@.content,
    {
        self.content.as_slice()
    }

    /// The subsections, each of strictly greater level.
    pub fn subsections(&self) -> (r: &[Section])
        ensures
            secs_model(r@) == self@.subsections,
    {
        self.subsections.as_slice()
    }
}

impl Document {
    /// Creates an empty document.
    pub fn new() -> (r: Self)
        ensures
            r@ == (Doc { content: Seq::<Block>::empty(), sections: Seq::<Sec>::empty() }),
    {
        Self { content: Vec::new(), sections: Vec::new() }
    }

    /// The preamble blocks appearing before the first heading.
    pub fn content(&self) -> (r: &[BlockNode])
        ensures
            blocks_model(r@) == self@.content,
    {
        self.content.as_slice()
    }

    /// The top-level sections.
    pub fn sections(&self) -> (r: &[Section])
        ensures
            secs_model(r@) == self@.sections,
    {
        self.sections.as_slice()
    }
}

impl Default for Document {
    /// An empty document.
    fn default() -> (r: Self)
        ensures
            r@ == (Doc { content: Seq::<Block>::empty(), sections: Seq::<Sec>::empty() }),
    {
        Document::new()
    }
}

} // verus!
