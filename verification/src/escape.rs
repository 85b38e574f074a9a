//! HTML entity escaping, shared by the rendering engine and the sitemap
//! footer.
//!
//! The full rule replaces `&`, `<`, `>`, `"` and `'`; the text-only rule
//! replaces just the first three. `&` is handled per character together with
//! the rest, which matches replacing it first: no later replacement
//! introduces a character that an earlier one rewrites.

use vstd::prelude::*;

verus! {

/// The expansion of one character under the full escaping rule.
pub open spec fn sp_esc_char(c: char) -> Seq<char> {
    if c == '&' {
        seq!['&', 'a', 'm', 'p', ';']
    } else if c == '<' {
        seq!['&', 'l', 't', ';']
    } else if c == '>' {
        seq!['&', 'g', 't', ';']
    } else if c == '"' {
        seq!['&', 'q', 'u', 'o', 't', ';']
    } else if c == '\'' {
        seq!['&', '#', '3', '9', ';']
    } else {
        seq![c]
    }
}

/// The full escaping rule applied to a text: every character replaced by its
/// expansion, in order.
pub open spec fn sp_escape(s: Seq<char>) -> Seq<char>
    decreases s.len(),
{
    if s.len() == 0 {
        Seq::empty()
    } else {
        sp_esc_char(s[0]) + sp_escape(s.drop_first())
    }
}

/// The expansion of one character under the text-only escaping rule, which
/// leaves quotes alone.
pub open spec fn sp_esc_char_text(c: char) -> Seq<char> {
    if c == '&' {
        seq!['&', 'a', 'm', 'p', ';']
    } else if c == '<' {
        seq!['&', 'l', 't', ';']
    } else if c == '>' {
        seq!['&', 'g', 't', ';']
    } else {
        seq![c]
    }
}

/// The text-only escaping rule applied to a text.
pub open spec fn sp_escape_text(s: Seq<char>) -> Seq<char>
    decreases s.len(),
{
    if s.len() == 0 {
        Seq::empty()
    } else {
        sp_esc_char_text(s[0]) + sp_escape_text(s.drop_first())
    }
}

/// Escaping distributes over appending one character.
pub proof fn lemma_escape_push(s: Seq<char>, c: char)
    ensures
        sp_escape(s.push(c)) == sp_escape(s) + sp_esc_char(c),
    decreases s.len(),
{
    if s.len() == 0 {
        assert(s.push(c)[0] == c);
        assert(s.push(c).drop_first() =~= Seq::<char>::empty());
        assert(sp_escape(s.push(c)) =~= sp_esc_char(c) + sp_escape(Seq::<char>::empty()));
        assert(sp_esc_char(c) + Seq::<char>::empty() =~= sp_esc_char(c));
        assert(sp_escape(s) + sp_esc_char(c) =~= sp_esc_char(c));
    } else {
        assert(s.push(c)[0] == s[0]);
        assert(s.push(c).drop_first() =~= s.drop_first().push(c));
        lemma_escape_push(s.drop_first(), c);
        assert(sp_esc_char(s[0]) + (sp_escape(s.drop_first()) + sp_esc_char(c)) =~= (sp_esc_char(
            s[0],
        ) + sp_escape(s.drop_first())) + sp_esc_char(c));
    }
}

/// The text-only rule distributes over appending one character.
pub proof fn lemma_escape_text_push(s: Seq<char>, c: char)
    ensures
        sp_escape_text(s.push(c)) == sp_escape_text(s) + sp_esc_char_text(c),
    decreases s.len(),
{
    if s.len() == 0 {
        assert(s.push(c)[0] == c);
        assert(s.push(c).drop_first() =~= Seq::<char>::empty());
        assert(sp_escape_text(s.push(c)) =~= sp_esc_char_text(c) + sp_escape_text(
            Seq::<char>::empty(),
        ));
        assert(sp_esc_char_text(c) + Seq::<char>::empty() =~= sp_esc_char_text(c));
        assert(sp_escape_text(s) + sp_esc_char_text(c) =~= sp_esc_char_text(c));
    } else {
        assert(s.push(c)[0] == s[0]);
        assert(s.push(c).drop_first() =~= s.drop_first().push(c));
        lemma_escape_text_push(s.drop_first(), c);
        assert(sp_esc_char_text(s[0]) + (sp_escape_text(s.drop_first()) + sp_esc_char_text(c))
            =~= (sp_esc_char_text(s[0]) + sp_escape_text(s.drop_first())) + sp_esc_char_text(c));
    }
}

/// Appends the expansion of `c` under the full rule.
fn push_escaped(out: &mut Vec<char>, c: char)
    ensures
        final(out)@ == old(out)@ + sp_esc_char(c),
{
    let ghost o0 = out@;
    if c == '&' {
        out.push('&');
        out.push('a');
        out.push('m');
        out.push('p');
        out.push(';');
    } else if c == '<' {
        out.push('&');
        out.push('l');
        out.push('t');
        out.push(';');
    } else if c == '>' {
        out.push('&');
        out.push('g');
        out.push('t');
        out.push(';');
    } else if c == '"' {
        out.push('&');
        out.push('q');
        out.push('u');
        out.push('o');
        out.push('t');
        out.push(';');
    } else if c == '\'' {
        out.push('&');
        out.push('#');
        out.push('3');
        out.push('9');
        out.push(';');
    } else {
        out.push(c);
    }
    proof {
        assert(out@ =~= o0 + sp_esc_char(c));
    }
}

/// Appends the expansion of `c` under the text-only rule.
fn push_escaped_text(out: &mut Vec<char>, c: char)
    ensures
        final(out)@ == old(out)@ + sp_esc_char_text(c),
{
    let ghost o0 = out@;
    if c == '&' {
        out.push('&');
        out.push('a');
        out.push('m');
        out.push('p');
        out.push(';');
    } else if c == '<' {
        out.push('&');
        out.push('l');
        out.push('t');
        out.push(';');
    } else if c == '>' {
        out.push('&');
        out.push('g');
        out.push('t');
        out.push(';');
    } else {
        out.push(c);
    }
    proof {
        assert(out@ =~= o0 + sp_esc_char_text(c));
    }
}

/// Appends the full escaping of `v` to `out`.
pub fn append_escaped(out: &mut Vec<char>, v: &Vec<char>)
    ensures
        final(out)@ == old(out)@ + sp_escape(v@),
{
    let ghost o0 = out@;
    let n = v.len();
    let mut i: usize = 0;
    while i < n
        invariant
            0 <= i <= n,
            n == v.len(),
            out@ == o0 + sp_escape(v@.take(i as int)),
        decreases n - i,
    {
        proof {
            lemma_escape_push(v@.take(i as int), v@[i as int]);
            assert(v@.take(i as int).push(v@[i as int]) =~= v@.take(i as int + 1));
            assert((o0 + sp_escape(v@.take(i as int))) + sp_esc_char(v@[i as int]) =~= o0 + (
            sp_escape(v@.take(i as int)) + sp_esc_char(v@[i as int])));
        }
        push_escaped(out, v[i]);
        i = i + 1;
    }
    proof {
        assert(v@.take(n as int) =~= v@);
    }
}

/// Appends the text-only escaping of `v` to `out`.
pub fn append_escaped_text(out: &mut Vec<char>, v: &Vec<char>)
    ensures
        final(out)@ == old(out)@ + sp_escape_text(v@),
{
    let ghost o0 = out@;
    let n = v.len();
    let mut i: usize = 0;
    while i < n
        invariant
            0 <= i <= n,
            n == v.len(),
            out@ == o0 + sp_escape_text(v@.take(i as int)),
        decreases n - i,
    {
        proof {
            lemma_escape_text_push(v@.take(i as int), v@[i as int]);
            assert(v@.take(i as int).push(v@[i as int]) =~= v@.take(i as int + 1));
            assert((o0 + sp_escape_text(v@.take(i as int))) + sp_esc_char_text(v@[i as int]) =~= o0
                + (sp_escape_text(v@.take(i as int)) + sp_esc_char_text(v@[i as int])));
        }
        push_escaped_text(out, v[i]);
        i = i + 1;
    }
    proof {
        assert(v@.take(n as int) =~= v@);
    }
}

} // verus!
