//! Properties that tie the parsing and rendering engines together, stated
//! over the ghost model and proved once and for all.

use vstd::prelude::*;
use crate::ast::{Doc, PErr, Sec};
use crate::escape::{sp_esc_char, sp_escape};
use crate::html_writer::{sp_render_doc, sp_render_section, sp_render_sections};
use crate::parse_spec::{
    clip, lemma_heading_line_bounds, lemma_section_bounds, lemma_skip_blanks_bounds,
    sp_all_sections, sp_document_items, sp_parse, sp_peek_level, sp_section, sp_section_items,
    sp_skip_blanks,
};

verus! {

/// A section is well formed when its level is between one and six and all of
/// its subsections are well formed.
pub open spec fn sec_wf(sec: Sec) -> bool
    decreases sec, 1int,
{
    1 <= sec.level <= 6 && secs_wf(sec.subsections)
}

/// Every section of the sequence is well formed.
pub open spec fn secs_wf(ss: Seq<Sec>) -> bool
    decreases ss, 0int,
{
    if ss.len() == 0 {
        true
    } else {
        sec_wf(ss[0]) && secs_wf(ss.drop_first())
    }
}

/// Every section of the document is well formed.
pub open spec fn doc_wf(d: Doc) -> bool {
    secs_wf(d.sections)
}

/// Splitting one section off the front splits well-formedness.
pub proof fn lemma_secs_wf_cons(x: Sec, ys: Seq<Sec>)
    ensures
        secs_wf(seq![x] + ys) == (sec_wf(x) && secs_wf(ys)),
{
    let ss = seq![x] + ys;
    assert(ss[0] == x);
    assert(ss.drop_first() =~= ys);
}

/// A well-formed section renders without failure, and a failed rendering
/// means an ill-formed section.
pub proof fn lemma_wf_sections_render_ok(ss: Seq<Sec>)
    ensures
        secs_wf(ss) ==> sp_render_sections(ss) is Ok,
    decreases ss, 0int,
{
    if ss.len() > 0 {
        lemma_wf_section_render_ok(ss[0]);
        lemma_wf_sections_render_ok(ss.drop_first());
    }
}

/// A well-formed section renders without failure.
pub proof fn lemma_wf_section_render_ok(sec: Sec)
    ensures
        sec_wf(sec) ==> sp_render_section(sec) is Ok,
    decreases sec, 1int,
{
    lemma_wf_sections_render_ok(sec.subsections);
}

/// The sections that the parser yields are well formed: every heading level
/// it accepts lies between one and six.
pub proof fn lemma_parse_section_wf(s: Seq<char>, i: int)
    ensures
        sp_section(s, i) matches Ok(p) ==> sec_wf(p.0),
    decreases s.len() - i, 0int,
{
    lemma_heading_line_bounds(s, i);
    match crate::parse_spec::sp_heading_line(s, i) {
        Err(_) => (),
        Ok((level, title, j)) => {
            lemma_parse_section_items_wf(s, j, level);
        },
    }
}

/// The subsections a section body yields are well formed.
pub proof fn lemma_parse_section_items_wf(s: Seq<char>, i: int, level: u8)
    ensures
        sp_section_items(s, i, level) matches Ok(p) ==> secs_wf(p.1),
    decreases s.len() - i, 1int,
{
    let i1 = sp_skip_blanks(s, i);
    if 0 <= i && i <= s.len() {
        lemma_skip_blanks_bounds(s, i);
    }
    if !(0 <= i1 < s.len()) {
    } else if s[i1] == '#' {
        if sp_peek_level(s, i1) > level {
            lemma_section_bounds(s, i1);
            lemma_parse_section_wf(s, i1);
            match sp_section(s, i1) {
                Err(_) => (),
                Ok((sub, j)) => {
                    lemma_parse_section_items_wf(s, clip(s.len() as int, i1, j), level);
                    match sp_section_items(s, clip(s.len() as int, i1, j), level) {
                        Err(_) => (),
                        Ok(p) => {
                            lemma_secs_wf_cons(sub, p.1);
                        },
                    }
                },
            }
        }
    } else {
        crate::parse_spec::lemma_block_bounds(s, i1);
        match crate::parse_spec::sp_block(s, i1) {
            Err(_) => (),
            Ok((b, j)) => {
                lemma_parse_section_items_wf(s, j, level);
            },
        }
    }
}

/// The top-level sections the parser yields are well formed.
pub proof fn lemma_parse_all_sections_wf(s: Seq<char>, i: int)
    ensures
        sp_all_sections(s, i) matches Ok(p) ==> secs_wf(p.0),
    decreases s.len() - i,
{
    let i1 = sp_skip_blanks(s, i);
    if 0 <= i && i <= s.len() {
        lemma_skip_blanks_bounds(s, i);
    }
    if !(0 <= i1 < s.len()) {
    } else if s[i1] == '#' {
        lemma_section_bounds(s, i1);
        lemma_parse_section_wf(s, i1);
        match sp_section(s, i1) {
            Err(_) => (),
            Ok((sec, j)) => {
                lemma_parse_all_sections_wf(s, j);
                match sp_all_sections(s, j) {
                    Err(_) => (),
                    Ok(p) => {
                        lemma_secs_wf_cons(sec, p.0);
                    },
                }
            },
        }
    }
}

/// The sections of a parsed document are well formed.
pub proof fn lemma_parse_document_items_wf(s: Seq<char>, i: int)
    ensures
        sp_document_items(s, i) matches Ok(p) ==> secs_wf(p.1),
    decreases s.len() - i,
{
    let i1 = sp_skip_blanks(s, i);
    if 0 <= i && i <= s.len() {
        lemma_skip_blanks_bounds(s, i);
    }
    if !(0 <= i1 < s.len()) {
    } else if s[i1] == '#' {
        lemma_parse_all_sections_wf(s, i1);
    } else {
        crate::parse_spec::lemma_block_bounds(s, i1);
        match crate::parse_spec::sp_block(s, i1) {
            Err(_) => (),
            Ok((b, j)) => {
                lemma_parse_document_items_wf(s, j);
            },
        }
    }
}

/// A parsed document is well formed.
pub proof fn lemma_parse_wf(text: Seq<char>, d: Doc)
    requires
        sp_parse(text) == Ok::<Doc, PErr>(d),
    ensures
        doc_wf(d),
{
    lemma_parse_document_items_wf(text, 0);
}

/// For all well-formed input, rendering the parsed document never fails:
/// the parser only accepts heading levels between one and six, and those are
/// exactly the levels the rendering engine accepts.
pub proof fn lemma_parse_then_render_ok(text: Seq<char>, d: Doc)
    requires
        sp_parse(text) == Ok::<Doc, PErr>(d),
    ensures
        sp_render_doc(d) is Ok,
{
    lemma_parse_wf(text, d);
    lemma_wf_sections_render_ok(d.sections);
}

/// Escaping is not idempotent: escaping an ampersand twice differs from
/// escaping it once, so escaping must be applied exactly once per emission.
pub proof fn lemma_escape_not_idempotent()
    ensures
        sp_escape(sp_escape(seq!['&'])) != sp_escape(seq!['&']),
{
    let one = seq!['&'];
    assert(one[0] == '&');
    assert(one.drop_first() =~= Seq::<char>::empty());
    assert(sp_escape(Seq::<char>::empty()) =~= Seq::<char>::empty());
    let e1 = sp_escape(one);
    assert(e1 == sp_esc_char('&') + sp_escape(one.drop_first()));
    assert(e1 =~= seq!['&', 'a', 'm', 'p', ';']);
    lemma_escape_len(e1);
    assert(sp_escape(e1).len() >= e1.len() + 4);
}

/// Escaping a text that holds an ampersand grows it by four characters for
/// each, so the result is at least as long, and strictly longer when an
/// ampersand occurs.
pub proof fn lemma_escape_len(s: Seq<char>)
    ensures
        sp_escape(s).len() >= s.len(),
        (exists|k: int| 0 <= k < s.len() && s[k] == '&') ==> sp_escape(s).len() >= s.len() + 4,
    decreases s.len(),
{
    if s.len() > 0 {
        lemma_escape_len(s.drop_first());
        if exists|k: int| 0 <= k < s.len() && s[k] == '&' {
            let k = choose|k: int| 0 <= k < s.len() && s[k] == '&';
            if k == 0 {
                assert(sp_esc_char(s[0]).len() == 5);
            } else {
                assert(s.drop_first()[k - 1] == '&');
            }
        }
    }
}

/// Whether one of the five entity expansions stands at `k` in `t`.
pub open spec fn sp_entity_at(t: Seq<char>, k: int) -> bool {
    ||| (k + 5 <= t.len() && t.subrange(k, k + 5) == seq!['&', 'a', 'm', 'p', ';'])
    ||| (k + 4 <= t.len() && t.subrange(k, k + 4) == seq!['&', 'l', 't', ';'])
    ||| (k + 4 <= t.len() && t.subrange(k, k + 4) == seq!['&', 'g', 't', ';'])
    ||| (k + 6 <= t.len() && t.subrange(k, k + 6) == seq!['&', 'q', 'u', 'o', 't', ';'])
    ||| (k + 5 <= t.len() && t.subrange(k, k + 5) == seq!['&', '#', '3', '9', ';'])
}

/// Escaped text never holds a raw `<`, `>`, `"` or `'`, and every `&` in it
/// begins one of the five entity expansions: the raw specials of the source
/// text can never reach the output unescaped.
pub proof fn lemma_escape_no_raw_specials(s: Seq<char>)
    ensures
        forall|k: int|
            0 <= k < sp_escape(s).len() ==> sp_escape(s)[k] != '<' && sp_escape(s)[k] != '>'
                && sp_escape(s)[k] != '"' && sp_escape(s)[k] != '\'',
        forall|k: int|
            0 <= k < sp_escape(s).len() && sp_escape(s)[k] == '&' ==> sp_entity_at(
                sp_escape(s),
                k,
            ),
    decreases s.len(),
{
    if s.len() > 0 {
        lemma_escape_no_raw_specials(s.drop_first());
        let out = sp_escape(s);
        let chunk = sp_esc_char(s[0]);
        let rest = sp_escape(s.drop_first());
        let cl = chunk.len() as int;
        assert(out == chunk + rest);
        assert forall|k: int|
            0 <= k < out.len() implies out[k] != '<' && out[k] != '>' && out[k] != '"' && out[k]
            != '\'' && (out[k] == '&' ==> sp_entity_at(out, k)) by {
            if k < cl {
                if s[0] == '&' {
                    assert(out.subrange(0, 5) =~= seq!['&', 'a', 'm', 'p', ';']);
                } else if s[0] == '<' {
                    assert(out.subrange(0, 4) =~= seq!['&', 'l', 't', ';']);
                } else if s[0] == '>' {
                    assert(out.subrange(0, 4) =~= seq!['&', 'g', 't', ';']);
                } else if s[0] == '"' {
                    assert(out.subrange(0, 6) =~= seq!['&', 'q', 'u', 'o', 't', ';']);
                } else if s[0] == '\'' {
                    assert(out.subrange(0, 5) =~= seq!['&', '#', '3', '9', ';']);
                } else {
                    assert(chunk == seq![s[0]]);
                    assert(out[k] == s[0]);
                }
            } else {
                assert(out[k] == rest[k - cl]);
                if out[k] == '&' {
                    assert(sp_entity_at(rest, k - cl));
                    lemma_entity_shift(chunk, rest, k - cl);
                }
            }
        }
    }
}

/// An entity in the tail of a concatenation is an entity in the whole.
pub proof fn lemma_entity_shift(front: Seq<char>, rest: Seq<char>, k: int)
    requires
        0 <= k < rest.len(),
        sp_entity_at(rest, k),
    ensures
        sp_entity_at(front + rest, front.len() + k),
{
    let out = front + rest;
    let f = front.len() as int;
    if k + 5 <= rest.len() && rest.subrange(k, k + 5) == seq!['&', 'a', 'm', 'p', ';'] {
        assert(out.subrange(f + k, f + k + 5) =~= rest.subrange(k, k + 5));
    } else if k + 4 <= rest.len() && rest.subrange(k, k + 4) == seq!['&', 'l', 't', ';'] {
        assert(out.subrange(f + k, f + k + 4) =~= rest.subrange(k, k + 4));
    } else if k + 4 <= rest.len() && rest.subrange(k, k + 4) == seq!['&', 'g', 't', ';'] {
        assert(out.subrange(f + k, f + k + 4) =~= rest.subrange(k, k + 4));
    } else if k + 6 <= rest.len() && rest.subrange(k, k + 6) == seq!['&', 'q', 'u', 'o', 't', ';'] {
        assert(out.subrange(f + k, f + k + 6) =~= rest.subrange(k, k + 6));
    } else {
        assert(out.subrange(f + k, f + k + 5) =~= rest.subrange(k, k + 5));
    }
}

} // verus!
