//! The pure logic of the directory-based router: URL path sanitizing, the
//! candidate file paths a URL resolves to, and the sitemap footer HTML.
//!
//! The filesystem probing that decides which candidate actually exists is not
//! part of the library; callers hand these functions plain path strings and
//! receive plain path strings back.

use vstd::prelude::*;
use vstd::string::StringExecFns;
use crate::escape::{append_escaped, append_escaped_text, sp_escape, sp_escape_text};
use crate::text::{chars_to_string, push_str_chars, str_chars};

verus! {

/// A path handled by the router. The filesystem path type itself is opaque
/// to this crate's logic; values of it only pass through.
#[verifier::external_type_specification]
#[verifier::external_body]
pub struct ExPathBuf(std::path::PathBuf);

/// Relies on `PathBuf::clone`; the clone is a filesystem path like any
/// other, and nothing further is assumed of it.
pub assume_specification[ <std::path::PathBuf as std::clone::Clone>::clone ](
    p: &std::path::PathBuf,
) -> std::path::PathBuf;

/// A routing failure.
#[derive(Debug)]
pub enum RouterError {
    InvalidContentRoot { path: std::path::PathBuf, reason: String },
    InvalidPath { path: String, reason: String },
    IoError { path: std::path::PathBuf, message: String },
}

/// The outcome of resolving a URL path against the content directory.
#[derive(Debug)]
pub enum ResolvedPath {
    Found(std::path::PathBuf),
    NotFound { attempted_paths: Vec<std::path::PathBuf> },
}

impl ResolvedPath {
    /// Whether a file was found.
    pub fn is_found(&self) -> (r: bool)
        ensures
            r == (self matches ResolvedPath::Found(_)),
    {
        match self {
            ResolvedPath::Found(_) => true,
            ResolvedPath::NotFound { .. } => false,
        }
    }

    /// The found file's path, if any.
    pub fn path(&self) -> (r: Option<&std::path::PathBuf>)
        ensures
            match self {
                ResolvedPath::Found(p) => r matches Some(q) && q == p,
                ResolvedPath::NotFound { .. } => r is None,
            },
    {
        match self {
            ResolvedPath::Found(path) => Some(path),
            ResolvedPath::NotFound { .. } => None,
        }
    }
}

/// `s` with every leading `/` removed.
pub open spec fn sp_strip_slashes(s: Seq<char>) -> Seq<char>
    decreases s.len(),
{
    if s.len() > 0 && s[0] == '/' {
        sp_strip_slashes(s.drop_first())
    } else {
        s
    }
}

/// The first `/`-separated component of `s`.
pub open spec fn sp_first_component(s: Seq<char>) -> Seq<char>
    decreases s.len(),
{
    if s.len() > 0 && s[0] != '/' {
        seq![s[0]] + sp_first_component(s.drop_first())
    } else {
        Seq::empty()
    }
}

/// The reason a single path component is rejected, if any: a parent
/// reference, a current-directory reference, or an empty component.
pub open spec fn sp_component_reason(c: Seq<char>) -> Option<Seq<char>> {
    if c == seq!['.', '.'] {
        Some("path contains '..' component"@)
    } else if c == seq!['.'] {
        Some("path contains '.' component"@)
    } else if c.len() == 0 {
        Some("path contains empty component (double slash)"@)
    } else {
        None
    }
}

pub proof fn lemma_first_component_len(s: Seq<char>)
    ensures
        sp_first_component(s).len() <= s.len(),
    decreases s.len(),
{
    if s.len() > 0 && s[0] != '/' {
        lemma_first_component_len(s.drop_first());
    }
}

/// The reason the first rejected component of `s` is rejected, if any,
/// walking the components left to right.
pub open spec fn sp_check_components(s: Seq<char>) -> Option<Seq<char>>
    decreases s.len(),
{
    let c = sp_first_component(s);
    match sp_component_reason(c) {
        Some(r) => Some(r),
        None => if c.len() < s.len() {
            proof {
                lemma_first_component_len(s);
            }
            sp_check_components(s.skip(c.len() as int + 1))
        } else {
            None
        },
    }
}

/// What sanitizing a URL path yields: the path with leading slashes removed,
/// or the reason it is rejected. A trailing slash is rejected outright; then
/// every component must be a plain name.
pub open spec fn sp_sanitize(s: Seq<char>) -> Result<Seq<char>, Seq<char>> {
    if s.len() > 1 && s[s.len() - 1] == '/' {
        Err("trailing slashes are not allowed"@)
    } else {
        let p = sp_strip_slashes(s);
        if p.len() == 0 {
            Ok(Seq::empty())
        } else {
            match sp_check_components(p) {
                Some(r) => Err(r),
                None => Ok(p),
            }
        }
    }
}

/// Sanitizes a URL path for security: rejects trailing slashes, `..` and `.`
/// components, and empty components, and strips the leading slashes.
pub fn sanitize_path(url_path: &str) -> (r: Result<String, RouterError>)
    ensures
        match sp_sanitize(url_path@) {
            Ok(p) => r matches Ok(out) && out@ == p,
            Err(reason) => r matches Err(e) && (e matches RouterError::InvalidPath {
                path,
                reason: rr,
            } && path@ == url_path@ && rr@ == reason),
        },
{
    let v = str_chars(url_path);
    if v.len() > 1 && v[v.len() - 1] == '/' {
        return Err(
            RouterError::InvalidPath {
                path: String::from_str(url_path),
                reason: String::from_str("trailing slashes are not allowed"),
            },
        );
    }
    let n = v.len();
    let mut start: usize = 0;
    proof {
        assert(v@.skip(0) =~= v@);
    }
    while start < n && v[start] == '/'
        invariant
            0 <= start <= n,
            n == v.len(),
            sp_strip_slashes(v@.skip(start as int)) == sp_strip_slashes(v@),
        decreases n - start,
    {
        proof {
            assert(v@.skip(start as int).drop_first() =~= v@.skip(start as int + 1));
        }
        start = start + 1;
    }
    let ghost p = v@.skip(start as int);
    proof {
        assert(sp_strip_slashes(p) == p);
        assert(sp_strip_slashes(v@) == p);
    }
    if start == n {
        proof {
            assert(p =~= Seq::<char>::empty());
        }
        return Ok(String::new());
    }
    // check the components of the stripped path, left to right
    let mut i: usize = start;
    loop
        invariant_except_break
            start <= i <= n,
            n == v.len(),
            start < n,
            v@ == url_path@,
            !(v@.len() > 1 && v@[v@.len() - 1] == '/'),
            p == v@.skip(start as int),
            p == sp_strip_slashes(v@),
            i < n ==> (i == start || v@[i as int - 1] == '/'),
            sp_check_components(p) == sp_check_components(v@.skip(i as int)),
        ensures
            sp_check_components(p) == None::<Seq<char>>,
        decreases n - i,
    {
        // scan one component
        let comp_start = i;
        let mut j = i;
        while j < n && v[j] != '/'
            invariant
                comp_start <= j <= n,
                n == v.len(),
                forall|k: int| comp_start <= k < j ==> v@[k] != '/',
            decreases n - j,
        {
            j = j + 1;
        }
        let ghost suffix = v@.skip(comp_start as int);
        let ghost c = sp_first_component(suffix);
        proof {
            lemma_first_component_chars(v@, comp_start as int, j as int);
        }
        let clen = j - comp_start;
        let is_dotdot = clen == 2 && v[comp_start] == '.' && v[comp_start + 1] == '.';
        let is_dot = clen == 1 && v[comp_start] == '.';
        let is_empty = clen == 0;
        proof {
            assert(c.len() == clen);
            if is_dotdot {
                assert(c =~= seq!['.', '.']);
            }
            if is_dot {
                assert(c =~= seq!['.']);
            }
            if !is_dotdot && !is_dot && clen == 2 {
                assert(!(c =~= seq!['.', '.']));
            }
            if !is_dot && clen == 1 {
                assert(!(c =~= seq!['.']));
            }
        }
        if is_dotdot {
            return Err(
                RouterError::InvalidPath {
                    path: String::from_str(url_path),
                    reason: String::from_str("path contains '..' component"),
                },
            );
        }
        if is_dot {
            return Err(
                RouterError::InvalidPath {
                    path: String::from_str(url_path),
                    reason: String::from_str("path contains '.' component"),
                },
            );
        }
        if is_empty {
            return Err(
                RouterError::InvalidPath {
                    path: String::from_str(url_path),
                    reason: String::from_str("path contains empty component (double slash)"),
                },
            );
        }
        if j == n {
            proof {
                assert(sp_check_components(suffix) == None::<Seq<char>>);
            }
            break ;
        }
        proof {
            assert(suffix.skip(c.len() as int + 1) =~= v@.skip(j as int + 1));
        }
        i = j + 1;
    }
    let mut out: Vec<char> = Vec::new();
    let mut k: usize = start;
    while k < n
        invariant
            start <= k <= n,
            n == v.len(),
            out@ =~= v@.subrange(start as int, k as int),
        decreases n - k,
    {
        out.push(v[k]);
        k = k + 1;
    }
    proof {
        assert(out@ =~= v@.skip(start as int));
    }
    Ok(chars_to_string(&out))
}

/// The last `/`-separated component of `s`.
pub open spec fn sp_last_component(s: Seq<char>) -> Seq<char>
    decreases s.len(),
{
    if s.len() == 0 {
        Seq::empty()
    } else if s.last() == '/' {
        Seq::empty()
    } else {
        sp_last_component(s.drop_last()).push(s.last())
    }
}

/// The last component of `s` is exactly the characters after the last `/`.
pub proof fn lemma_last_component_chars(s: Seq<char>, e: int)
    requires
        0 <= e <= s.len(),
        forall|k: int| e <= k < s.len() ==> s[k] != '/',
        e > 0 ==> s[e - 1] == '/',
    ensures
        sp_last_component(s) == s.skip(e),
    decreases s.len(),
{
    if s.len() > e {
        assert(s.last() != '/');
        assert(s.drop_last() =~= s.take(s.len() - 1));
        lemma_last_component_chars(s.take(s.len() - 1), e);
        assert(s.take(s.len() - 1).skip(e).push(s.last()) =~= s.skip(e));
    } else {
        assert(s.skip(e) =~= Seq::<char>::empty());
        if e > 0 {
            assert(s.last() == '/');
        }
    }
}

/// The relative path of the file that serves a sanitized URL path directly.
pub fn file_rel_path(sanitized: &str) -> (r: String)
    ensures
        r@ == sanitized@ + ".md"@,
{
    let mut r = String::from_str(sanitized);
    r.append(".md");
    r
}

/// The index of the character after the last `/` of `v`, or zero.
fn last_component_start(v: &Vec<char>) -> (e: usize)
    ensures
        0 <= e <= v.len(),
        forall|k: int| e <= k < v@.len() ==> v@[k] != '/',
        e > 0 ==> v@[e as int - 1] == '/',
        sp_last_component(v@) == v@.skip(e as int),
{
    let n = v.len();
    let mut e: usize = n;
    while e > 0 && v[e - 1] != '/'
        invariant
            0 <= e <= n,
            n == v.len(),
            forall|k: int| e <= k < n ==> v@[k] != '/',
        decreases e,
    {
        e = e - 1;
    }
    proof {
        lemma_last_component_chars(v@, e as int);
    }
    e
}

/// The relative path of the directory index file that serves a sanitized URL
/// path: the path as a directory, holding a file named after its last
/// component.
pub fn dir_index_rel_path(sanitized: &str) -> (r: String)
    ensures
        r@ == sanitized@ + seq!['/'] + sp_last_component(sanitized@) + ".md"@,
{
    let v = str_chars(sanitized);
    let e = last_component_start(&v);
    let mut out: Vec<char> = Vec::new();
    let mut vv = v.clone();
    proof {
        assert(vv@ == v@);
    }
    out.append(&mut vv);
    out.push('/');
    let n = v.len();
    let mut k = e;
    while k < n
        invariant
            e <= k <= n,
            n == v.len(),
            out@ =~= v@ + seq!['/'] + v@.subrange(e as int, k as int),
        decreases n - k,
    {
        out.push(v[k]);
        k = k + 1;
    }
    proof {
        assert(v@.subrange(e as int, n as int) =~= v@.skip(e as int));
        assert(out@ =~= v@ + seq!['/'] + sp_last_component(v@));
    }
    let mut r = chars_to_string(&out);
    r.append(".md");
    r
}

/// Whether a sanitized URL path names a directory's index file explicitly:
/// its last two components are equal. Such a path is rejected, because the
/// path without the repeated component already serves that file.
pub open spec fn sp_is_explicit_index(s: Seq<char>) -> bool {
    let lc = sp_last_component(s);
    lc.len() < s.len() && sp_last_component(s.take(s.len() - lc.len() - 1)) == lc
}

/// Whether the last two components of a sanitized URL path are equal.
pub fn is_explicit_index_path(sanitized: &str) -> (r: bool)
    ensures
        r == sp_is_explicit_index(sanitized@),
{
    let v = str_chars(sanitized);
    let n = v.len();
    let e1 = last_component_start(&v);
    if e1 == 0 {
        proof {
            assert(sp_last_component(v@) =~= v@.skip(0));
            assert(v@.skip(0) =~= v@);
        }
        return false;
    }
    // the prefix before the slash, and its own last component
    let plen = e1 - 1;
    let mut e2: usize = plen;
    while e2 > 0 && v[e2 - 1] != '/'
        invariant
            0 <= e2 <= plen,
            plen < n == v.len(),
            forall|k: int| e2 <= k < plen ==> v@[k] != '/',
        decreases e2,
    {
        e2 = e2 - 1;
    }
    let ghost prefix = v@.take(plen as int);
    proof {
        lemma_last_component_chars(prefix, e2 as int);
        assert(prefix.skip(e2 as int) =~= v@.subrange(e2 as int, plen as int));
        assert(sp_last_component(v@).len() == n - e1);
        assert(v@.take(n - (n - e1) - 1) =~= prefix);
    }
    // compare v[e2..plen] with v[e1..n]
    if plen - e2 != n - e1 {
        proof {
            assert(sp_last_component(prefix).len() != sp_last_component(v@).len());
        }
        return false;
    }
    let len = n - e1;
    let mut i: usize = 0;
    while i < len
        invariant
            0 <= i <= len,
            len == n - e1 == plen - e2,
            e2 + len <= plen < n == v.len(),
            v@ == sanitized@,
            sp_last_component(v@) == v@.skip(e1 as int),
            sp_last_component(v@.take(plen as int)) == v@.subrange(e2 as int, plen as int),
            v@.take(v@.len() - (v@.len() - e1) - 1) == v@.take(plen as int),
            forall|k: int| 0 <= k < i ==> v@[#[trigger] (e2 + k)] == v@[e1 + k],
        decreases len - i,
    {
        if v[e2 + i] != v[e1 + i] {
            proof {
                assert(v@.subrange(e2 as int, plen as int)[i as int] != v@.skip(e1 as int)[
                    i as int
                ]);
            }
            return false;
        }
        i = i + 1;
    }
    proof {
        assert forall|k: int| 0 <= k < len implies v@.subrange(e2 as int, plen as int)[k]
            == v@.skip(e1 as int)[k] by {
            assert(v@[e2 + k] == v@[e1 + k]);
        }
        assert(v@.subrange(e2 as int, plen as int) =~= v@.skip(e1 as int));
    }
    true
}

/// The hierarchical fallback paths of the not-found page for a sanitized URL
/// path: a `404.md` beside the requested file, then one per ancestor
/// directory, the content root last.
pub open spec fn sp_notfound_paths(s: Seq<char>) -> Seq<Seq<char>>
    decreases s.len(),
{
    if s.len() == 0 {
        seq!["404.md"@]
    } else {
        let lc = sp_last_component(s);
        let parent = if lc.len() < s.len() {
            s.take(s.len() - lc.len() - 1)
        } else {
            Seq::empty()
        };
        proof {
            lemma_last_component_len(s);
        }
        seq![s + seq!['/'] + "404.md"@] + sp_notfound_paths(parent)
    }
}

pub proof fn lemma_last_component_len(s: Seq<char>)
    ensures
        sp_last_component(s).len() <= s.len(),
    decreases s.len(),
{
    if s.len() > 0 && s.last() != '/' {
        lemma_last_component_len(s.drop_last());
    }
}

/// The candidate relative paths of the not-found page, deepest first.
pub fn notfound_rel_paths(sanitized: &str) -> (r: Vec<String>)
    ensures
        ({
            let ps = sp_notfound_paths(sanitized@);
            r@.len() == ps.len() && forall|i: int| 0 <= i < ps.len() ==> r@[i]@ == ps[i]
        }),
{
    let v = str_chars(sanitized);
    let ghost ps = sp_notfound_paths(v@);
    let n = v.len();
    let mut out: Vec<String> = Vec::new();
    let mut e: usize = n;
    proof {
        assert(v@.take(n as int) =~= v@);
        assert(ps.skip(0) =~= ps);
    }
    loop
        invariant_except_break
            0 <= e <= n,
            n == v.len(),
            ps == sp_notfound_paths(v@),
            ps.skip(out.len() as int) == sp_notfound_paths(v@.take(e as int)),
            out.len() <= ps.len(),
            forall|i: int| 0 <= i < out.len() ==> out@[i]@ == ps[i],
        ensures
            out.len() == ps.len(),
            forall|i: int| 0 <= i < out.len() ==> out@[i]@ == ps[i],
        decreases e + 1,
    {
        let ghost pre = v@.take(e as int);
        let ghost tail = sp_notfound_paths(pre);
        let mut path: Vec<char> = Vec::new();
        let mut i: usize = 0;
        while i < e
            invariant
                0 <= i <= e <= n,
                n == v.len(),
                path@ =~= v@.subrange(0, i as int),
            decreases e - i,
        {
            path.push(v[i]);
            i = i + 1;
        }
        if e > 0 {
            path.push('/');
        }
        let mut p = chars_to_string(&path);
        p.append("404.md");
        proof {
            if e > 0 {
                assert(p@ =~= pre + seq!['/'] + "404.md"@);
                assert(tail[0] == pre + seq!['/'] + "404.md"@);
            } else {
                assert(pre =~= Seq::<char>::empty());
                assert(p@ =~= "404.md"@);
                assert(tail[0] == "404.md"@);
            }
            assert(tail.len() >= 1);
            assert(ps.skip(out.len() as int)[0] == ps[out.len() as int]);
            assert(ps[out.len() as int] == tail[0]);
        }
        out.push(p);
        proof {
            assert(ps.skip(out.len() as int) =~= ps.skip(out.len() as int - 1).drop_first());
        }
        if e == 0 {
            proof {
                assert(sp_notfound_paths(pre).len() == 1);
                assert(ps.skip(out.len() as int) =~= Seq::<Seq<char>>::empty());
                assert(out.len() == ps.len());
            }
            break ;
        }
        // step to the parent directory
        let mut e2: usize = e;
        while e2 > 0 && v[e2 - 1] != '/'
            invariant
                0 <= e2 <= e <= n,
                n == v.len(),
                forall|k: int| e2 <= k < e ==> v@[k] != '/',
            decreases e2,
        {
            e2 = e2 - 1;
        }
        proof {
            lemma_last_component_chars(pre, e2 as int);
            let lc = sp_last_component(pre);
            assert(lc =~= pre.skip(e2 as int));
            if e2 > 0 {
                assert(lc.len() == e - e2);
                assert(pre.take(pre.len() - lc.len() - 1) =~= v@.take(e2 as int - 1));
            } else {
                assert(lc.len() == e);
            }
        }
        if e2 == 0 {
            proof {
                assert(v@.take(0) =~= Seq::<char>::empty());
            }
            e = 0;
        } else {
            e = e2 - 1;
        }
    }
    out
}


/// A single entry in the site's hierarchical sitemap.
#[derive(Debug)]
pub struct SitemapEntry {
    /// Display name for the entry (derived from filename)
    pub name: String,
    /// URL path for the entry (e.g., "/home", "/home/about")
    pub url_path: String,
    /// Child entries (nested pages)
    pub children: Vec<SitemapEntry>,
}

/// Ghost mirror of [`SitemapEntry`].
pub ghost struct SitemapS {
    pub name: Seq<char>,
    pub url_path: Seq<char>,
    pub children: Seq<SitemapS>,
}

impl SitemapEntry {
    /// Creates a sitemap entry with no children yet.
    pub fn new(name: String, url_path: String) -> (r: Self)
        ensures
            r@ == (SitemapS { name: name@, url_path: url_path@, children: Seq::<SitemapS>::empty() }),
    {
        let r = Self { name, url_path, children: Vec::new() };
        proof {
            assert(sitemaps_model(Seq::<SitemapEntry>::empty()) =~= Seq::<SitemapS>::empty());
        }
        r
    }

    /// The ghost mirror of this entry.
    pub open spec fn model(self) -> SitemapS
        decreases self, 1int,
    {
        SitemapS {
            name: self.name@,
            url_path: self.url_path@,
            children: sitemaps_model(self.children@),
        }
    }
}

/// The ghost mirror of a sequence of sitemap entries.
pub open spec fn sitemaps_model(es: Seq<SitemapEntry>) -> Seq<SitemapS>
    decreases es, 0int,
{
    if es.len() == 0 {
        Seq::empty()
    } else {
        seq![es[0].model()] + sitemaps_model(es.drop_first())
    }
}

impl View for SitemapEntry {
    type V = SitemapS;

    open spec fn view(&self) -> SitemapS {
        self.model()
    }
}

/// How a sequence of sitemap entries and its mirror correspond.
pub proof fn lemma_sitemaps_model(es: Seq<SitemapEntry>)
    ensures
        sitemaps_model(es).len() == es.len(),
        forall|i: int| 0 <= i < es.len() ==> sitemaps_model(es)[i] == es[i].model(),
    decreases es.len(),
{
    if es.len() > 0 {
        lemma_sitemaps_model(es.drop_first());
    }
}

/// The ghost mirror of the optional current URL path.
pub open spec fn sp_cur_model(cur: Option<&str>) -> Option<Seq<char>> {
    match cur {
        Some(p) => Some(p@),
        None => None,
    }
}

/// The HTML of one sitemap entry: a list item holding a link, the current
/// page's name wrapped in a bold here-marker, and the nested list of its
/// children, if any.
pub open spec fn sp_sitemap_entry(e: SitemapS, cur: Option<Seq<char>>) -> Seq<char>
    decreases e, 2int,
{
    "<li>"@ + "<a href=\""@ + sp_escape(e.url_path) + "\">"@ + (if cur == Some(e.url_path) {
        "<b>"@ + sp_escape_text(e.name) + " \u{2190} you're here"@ + "</b>"@
    } else {
        sp_escape_text(e.name)
    }) + "</a>"@ + (if e.children.len() > 0 {
        sp_sitemap_list(e.children, cur)
    } else {
        Seq::empty()
    }) + "</li>"@
}

/// The items of a sitemap list, in order.
pub open spec fn sp_sitemap_items(es: Seq<SitemapS>, cur: Option<Seq<char>>) -> Seq<char>
    decreases es, 1int,
{
    if es.len() == 0 {
        Seq::empty()
    } else {
        sp_sitemap_entry(es[0], cur) + sp_sitemap_items(es.drop_first(), cur)
    }
}

/// A nested sitemap list.
pub open spec fn sp_sitemap_list(es: Seq<SitemapS>, cur: Option<Seq<char>>) -> Seq<char>
    decreases es, 3int,
{
    "<ul>"@ + sp_sitemap_items(es, cur) + "</ul>"@
}

/// The sitemap footer: a double horizontal rule, then the nested sitemap
/// list when any entry exists.
pub open spec fn sp_footer(es: Seq<SitemapS>, cur: Option<Seq<char>>) -> Seq<char> {
    "<hr><hr>"@ + (if es.len() > 0 {
        sp_sitemap_list(es, cur)
    } else {
        Seq::empty()
    })
}

/// Generates the HTML footer: a double horizontal rule and the nested
/// sitemap, with the current page highlighted.
pub fn generate_sitemap_footer(entries: &[SitemapEntry], current_path: Option<&str>) -> (r:
    String)
    ensures
        r@ == sp_footer(sitemaps_model(entries@), sp_cur_model(current_path)),
{
    let mut out: Vec<char> = Vec::new();
    push_str_chars(&mut out, "<hr><hr>");
    if entries.len() > 0 {
        render_sitemap_list(entries, current_path, &mut out);
    } else {
        proof {
            assert(out@ + Seq::<char>::empty() =~= out@);
        }
    }
    chars_to_string(&out)
}

/// Renders a nested sitemap list into `out`.
#[verifier::rlimit(60)]
fn render_sitemap_list(entries: &[SitemapEntry], cur: Option<&str>, out: &mut Vec<char>)
    ensures
        final(out)@ == old(out)@ + sp_sitemap_list(
            sitemaps_model(entries@),
            sp_cur_model(cur),
        ),
    decreases entries@, 1int,
{
    let ghost mc = sp_cur_model(cur);
    let ghost ms = sitemaps_model(entries@);
    proof {
        lemma_sitemaps_model(entries@);
        assert(ms.skip(0) =~= ms);
    }
    push_str_chars(out, "<ul>");
    let ghost o1 = out@;
    let n = entries.len();
    let mut i: usize = 0;
    while i < n
        invariant
            0 <= i <= n,
            n == entries.len(),
            mc == sp_cur_model(cur),
            ms == sitemaps_model(entries@),
            ms.len() == n,
            forall|k: int| 0 <= k < n ==> ms[k] == entries@[k].model(),
            out@ + sp_sitemap_items(ms.skip(i as int), mc) == o1 + sp_sitemap_items(ms, mc),
        decreases n - i,
    {
        let ghost p0 = out@;
        render_sitemap_item(&entries[i], cur, out);
        proof {
            assert(ms.skip(i as int)[0] == ms[i as int]);
            assert(ms.skip(i as int).drop_first() =~= ms.skip(i as int + 1));
            assert(p0 + (sp_sitemap_entry(ms[i as int], mc) + sp_sitemap_items(
                ms.skip(i as int + 1),
                mc,
            )) =~= out@ + sp_sitemap_items(ms.skip(i as int + 1), mc));
        }
        i = i + 1;
    }
    proof {
        assert(ms.skip(n as int) =~= Seq::<SitemapS>::empty());
        assert(out@ + Seq::<char>::empty() =~= out@);
    }
    push_str_chars(out, "</ul>");
    proof {
        assert(old(out)@ + ("<ul>"@ + sp_sitemap_items(ms, mc) + "</ul>"@) =~= out@);
    }
}

/// Renders one sitemap entry into `out`.
#[verifier::rlimit(60)]
fn render_sitemap_item(entry: &SitemapEntry, cur: Option<&str>, out: &mut Vec<char>)
    ensures
        final(out)@ == old(out)@ + sp_sitemap_entry(entry@, sp_cur_model(cur)),
    decreases *entry, 0int,
{
    push_str_chars(out, "<li>");
    push_str_chars(out, "<a href=\"");
    let url_chars = str_chars(entry.url_path.as_str());
    append_escaped(out, &url_chars);
    push_str_chars(out, "\">");
    let is_current = match cur {
        Some(p) => crate::text::str_eq_str(p, entry.url_path.as_str()),
        None => false,
    };
    proof {
        assert(is_current == (sp_cur_model(cur) == Some(entry@.url_path)));
    }
    let name_chars = str_chars(entry.name.as_str());
    if is_current {
        push_str_chars(out, "<b>");
        append_escaped_text(out, &name_chars);
        push_str_chars(out, " \u{2190} you're here");
        push_str_chars(out, "</b>");
    } else {
        append_escaped_text(out, &name_chars);
    }
    push_str_chars(out, "</a>");
    if entry.children.len() > 0 {
        render_sitemap_list(entry.children.as_slice(), cur, out);
    } else {
        proof {
            assert(sitemaps_model(entry.children@).len() == 0);
        }
    }
    push_str_chars(out, "</li>");
    proof {
        assert(final(out)@ =~= old(out)@ + sp_sitemap_entry(entry@, sp_cur_model(cur)));
    }
}

/// Escapes HTML entities in attribute values.
pub fn escape_html_attr(content: &str) -> (r: String)
    ensures
        r@ == sp_escape(content@),
{
    let v = str_chars(content);
    let mut out: Vec<char> = Vec::new();
    append_escaped(&mut out, &v);
    proof {
        assert(Seq::<char>::empty() + sp_escape(content@) =~= sp_escape(content@));
    }
    chars_to_string(&out)
}

/// Escapes HTML entities in text content, leaving quotes alone.
pub fn escape_html_text(content: &str) -> (r: String)
    ensures
        r@ == sp_escape_text(content@),
{
    let v = str_chars(content);
    let mut out: Vec<char> = Vec::new();
    append_escaped_text(&mut out, &v);
    proof {
        assert(Seq::<char>::empty() + sp_escape_text(content@) =~= sp_escape_text(content@));
    }
    chars_to_string(&out)
}

/// The first component of the suffix of `s` at `cs` is exactly the characters
/// up to the next `/` at `ce`.
pub proof fn lemma_first_component_chars(s: Seq<char>, cs: int, ce: int)
    requires
        0 <= cs <= ce <= s.len(),
        forall|k: int| cs <= k < ce ==> s[k] != '/',
        ce < s.len() ==> s[ce] == '/',
    ensures
        sp_first_component(s.skip(cs)) == s.subrange(cs, ce),
    decreases ce - cs,
{
    if cs < ce {
        assert(s.skip(cs)[0] == s[cs]);
        assert(s.skip(cs).drop_first() =~= s.skip(cs + 1));
        lemma_first_component_chars(s, cs + 1, ce);
        assert(seq![s[cs]] + s.subrange(cs + 1, ce) =~= s.subrange(cs, ce));
    } else {
        if cs < s.len() {
            assert(s.skip(cs)[0] == '/');
        }
        assert(sp_first_component(s.skip(cs)) =~= s.subrange(cs, ce));
    }
}

} // verus!
