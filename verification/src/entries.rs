//! Entry-level rules that need no database: identifier canonical forms, citation
//! key sanitising, search tokens and the SQL fragments of the entry filter.

use vstd::prelude::*;
use vstd::string::StrSliceExecFns;

use crate::models::{opt_view, EntryInput};
use crate::text::{
    all_ascii, ascii_upper, ascii_upper_spec, first_word, from_chars, has_prefix, is_ascii_alnum,
    is_ascii_alnum_spec, is_ws, is_ws_spec, lead_ws, lead_word, lowercase_chars, push_all,
    slice_chars, spec_to_lowercase, starts_with_chars, to_chars, trim_chars, trim_spec, contains_lit,
    contains_seq, trail_ws,
};

verus! {

// ── citation keys ──────────────────────────────────────────────────────────

/// Chars allowed in a BibTeX entry key: ASCII letters and digits and `_ : - . / +`.
pub open spec fn is_cite_key_char(c: char) -> bool {
    is_ascii_alnum_spec(c) || c == '_' || c == ':' || c == '-' || c == '.' || c == '/' || c == '+'
}

/// The chars of `s` that satisfy the citation-key rule, in order.
pub open spec fn keep_cite_chars(s: Seq<char>) -> Seq<char>
    decreases s.len(),
{
    if s.len() == 0 {
        seq![]
    } else if is_cite_key_char(s.last()) {
        keep_cite_chars(s.drop_last()).push(s.last())
    } else {
        keep_cite_chars(s.drop_last())
    }
}

/// Keeps only the chars safe in a BibTeX key (after trimming); `None` when
/// nothing is left, meaning "generate the key".
pub fn sanitize_citation_key(raw: &str) -> (r: Option<String>)
    ensures
        match r {
            Some(k) => k@ == keep_cite_chars(trim_spec(raw@)) && k@.len() > 0,
            None => keep_cite_chars(trim_spec(raw@)).len() == 0,
        },
{
    let c = to_chars(raw);
    let t = trim_chars(&c);
    let mut out: Vec<char> = Vec::new();
    let mut i: usize = 0;
    while i < t.len()
        invariant
            i <= t.len(),
            out@ == keep_cite_chars(t@.take(i as int)),
        decreases t.len() - i,
    {
        proof {
            assert(t@.take(i + 1).drop_last() == t@.take(i as int));
            assert(t@.take(i + 1).last() == t@[i as int]);
        }
        let ch = t[i];
        if is_ascii_alnum(ch) || ch == '_' || ch == ':' || ch == '-' || ch == '.' || ch == '/' || ch
            == '+' {
            out.push(ch);
        }
        i = i + 1;
    }
    assert(t@.take(t.len() as int) == t@);
    if out.len() == 0 {
        None
    } else {
        Some(from_chars(&out))
    }
}

proof fn lemma_keep_cite_chars_all(s: Seq<char>)
    ensures
        forall|k: int| 0 <= k < keep_cite_chars(s).len() ==> is_cite_key_char(
            #[trigger] keep_cite_chars(s)[k],
        ),
        keep_cite_chars(s).len() <= s.len(),
    decreases s.len(),
{
    if s.len() > 0 {
        lemma_keep_cite_chars_all(s.drop_last());
    }
}

proof fn lemma_keep_cite_chars_id(s: Seq<char>)
    requires
        forall|k: int| 0 <= k < s.len() ==> is_cite_key_char(#[trigger] s[k]),
    ensures
        keep_cite_chars(s) == s,
    decreases s.len(),
{
    if s.len() > 0 {
        lemma_keep_cite_chars_id(s.drop_last());
        assert(s.drop_last().push(s.last()) == s);
    }
}

/// A sanitised key is a fixed point: sanitising it again changes nothing.
pub proof fn lemma_sanitize_idempotent(raw: Seq<char>)
    ensures
        keep_cite_chars(trim_spec(keep_cite_chars(trim_spec(raw)))) == keep_cite_chars(
            trim_spec(raw),
        ),
{
    let k = keep_cite_chars(trim_spec(raw));
    lemma_keep_cite_chars_all(trim_spec(raw));
    lemma_trim_no_ws(k);
    lemma_keep_cite_chars_id(k);
}

/// Trimming a string without whitespace changes nothing.
proof fn lemma_trim_no_ws(s: Seq<char>)
    requires
        forall|k: int| 0 <= k < s.len() ==> is_cite_key_char(#[trigger] s[k]),
    ensures
        trim_spec(s) == s,
{
    assert forall|k: int| 0 <= k < s.len() implies !is_ws_spec(#[trigger] s[k]) by {
        assert(is_cite_key_char(s[k]));
    }
    lemma_no_lead(s);
    lemma_no_trail(s);
    assert(s.skip(0) == s);
    assert(s.take(s.len() as int) == s);
}

proof fn lemma_no_lead(s: Seq<char>)
    requires
        forall|k: int| 0 <= k < s.len() ==> !is_ws_spec(#[trigger] s[k]),
    ensures
        lead_ws(s) == 0,
{
    if s.len() > 0 {
        assert(!is_ws_spec(s[0]));
    }
}

proof fn lemma_no_trail(s: Seq<char>)
    requires
        forall|k: int| 0 <= k < s.len() ==> !is_ws_spec(#[trigger] s[k]),
    ensures
        crate::text::trail_ws(s) == 0,
{
    if s.len() > 0 {
        assert(!is_ws_spec(s[s.len() - 1]));
    }
}

// ── ISBN ───────────────────────────────────────────────────────────────────

/// The ASCII letters and digits of `s`, upper-cased, in order.
pub open spec fn isbn_chars(s: Seq<char>) -> Seq<char>
    decreases s.len(),
{
    if s.len() == 0 {
        seq![]
    } else if is_ascii_alnum_spec(s.last()) {
        isbn_chars(s.drop_last()).push(ascii_upper_spec(s.last()))
    } else {
        isbn_chars(s.drop_last())
    }
}

/// ISBN with hyphens, spaces and other separators removed and a trailing check
/// digit `x` upper-cased.
pub fn normalize_isbn(s: &str) -> (r: String)
    ensures
        r@ == isbn_chars(s@),
{
    let c = to_chars(s);
    let mut out: Vec<char> = Vec::new();
    let mut i: usize = 0;
    while i < c.len()
        invariant
            i <= c.len(),
            out@ == isbn_chars(c@.take(i as int)),
        decreases c.len() - i,
    {
        proof {
            assert(c@.take(i + 1).drop_last() == c@.take(i as int));
            assert(c@.take(i + 1).last() == c@[i as int]);
        }
        if is_ascii_alnum(c[i]) {
            out.push(ascii_upper(c[i]));
        }
        i = i + 1;
    }
    assert(c@.take(c.len() as int) == c@);
    from_chars(&out)
}

/// Canonical ISBN: the normalised ISBN, `None` when it is empty.
pub fn canonical_isbn(s: &str) -> (r: Option<String>)
    ensures
        match r {
            Some(v) => v@ == isbn_chars(s@) && v@.len() > 0,
            None => isbn_chars(s@).len() == 0,
        },
{
    let t = normalize_isbn(s);
    if t.as_str().unicode_len() == 0 {
        proof {
            lemma_isbn_len(s@);
        }
        None
    } else {
        proof {
            lemma_isbn_len(s@);
        }
        Some(t)
    }
}

proof fn lemma_isbn_len(s: Seq<char>)
    ensures
        crate::text::all_ascii(isbn_chars(s)),
    decreases s.len(),
{
    if s.len() > 0 {
        lemma_isbn_len(s.drop_last());
    }
}

// ── DOI ────────────────────────────────────────────────────────────────────

/// DOI prefixes removed by `canonical_doi`, tried in this order.
pub open spec fn doi_strip(t: Seq<char>) -> Seq<char> {
    if has_prefix(t, "https://doi.org/"@) {
        t.skip(("https://doi.org/"@).len() as int)
    } else if has_prefix(t, "http://doi.org/"@) {
        t.skip(("http://doi.org/"@).len() as int)
    } else if has_prefix(t, "https://dx.doi.org/"@) {
        t.skip(("https://dx.doi.org/"@).len() as int)
    } else if has_prefix(t, "http://dx.doi.org/"@) {
        t.skip(("http://dx.doi.org/"@).len() as int)
    } else if has_prefix(t, "doi:"@) {
        t.skip(("doi:"@).len() as int)
    } else if has_prefix(t, "DOI:"@) {
        t.skip(("DOI:"@).len() as int)
    } else {
        t
    }
}

/// Canonical DOI text before the emptiness test.
pub open spec fn doi_canonical_text(s: Seq<char>) -> Seq<char> {
    spec_to_lowercase(trim_spec(doi_strip(trim_spec(s))))
}

/// Strips `p` from the front of `t` if it is there.
fn strip_lit(t: &Vec<char>, p: &str) -> (r: Option<Vec<char>>)
    ensures
        match r {
            Some(x) => has_prefix(t@, p@) && x@ == t@.skip(p@.len() as int),
            None => !has_prefix(t@, p@),
        },
{
    let pc = to_chars(p);
    if starts_with_chars(t, &pc) {
        Some(slice_chars(t, pc.len(), t.len()))
    } else {
        None
    }
}

/// Canonical DOI: trimmed, without a `https://doi.org/`, `http://doi.org/`,
/// `https://dx.doi.org/`, `http://dx.doi.org/`, `doi:` or `DOI:` prefix,
/// lower-cased; `None` when empty.
pub fn canonical_doi(s: &str) -> (r: Option<String>)
    ensures
        match r {
            Some(v) => v@ == doi_canonical_text(s@) && v@.len() > 0,
            None => doi_canonical_text(s@).len() == 0,
        },
{
    let c = to_chars(s);
    let t = trim_chars(&c);
    let stripped = match strip_lit(&t, "https://doi.org/") {
        Some(x) => x,
        None => match strip_lit(&t, "http://doi.org/") {
            Some(x) => x,
            None => match strip_lit(&t, "https://dx.doi.org/") {
                Some(x) => x,
                None => match strip_lit(&t, "http://dx.doi.org/") {
                    Some(x) => x,
                    None => match strip_lit(&t, "doi:") {
                        Some(x) => x,
                        None => match strip_lit(&t, "DOI:") {
                            Some(x) => x,
                            None => t,
                        },
                    },
                },
            },
        },
    };
    let t2 = trim_chars(&stripped);
    let low = lowercase_chars(&t2);
    if low.len() == 0 {
        None
    } else {
        Some(from_chars(&low))
    }
}

// ── arXiv ──────────────────────────────────────────────────────────────────

/// `s` ends in a version marker `v<digits>` preceded by at least one char;
/// the result is the index where the marker starts.
pub open spec fn version_start(s: Seq<char>) -> Option<int> {
    let d = crate::text::trail_digits(s);
    if d > 0 && s.len() >= d + 2 && s[s.len() - d - 1] == 'v' {
        Some(s.len() - d - 1)
    } else {
        None
    }
}

/// arXiv identifier without a leading `arXiv:` / `arxiv:` or arXiv URL, and
/// without a trailing version `v<n>`; old-style `category/number` ids keep
/// their category.
pub open spec fn arxiv_id_spec(s: Seq<char>) -> Seq<char> {
    let t = trim_spec(s);
    let u = if has_prefix(t, "https://arxiv.org/abs/"@) {
        t.skip(("https://arxiv.org/abs/"@).len() as int)
    } else if has_prefix(t, "http://arxiv.org/abs/"@) {
        t.skip(("http://arxiv.org/abs/"@).len() as int)
    } else if has_prefix(t, "arxiv.org/abs/"@) {
        t.skip(("arxiv.org/abs/"@).len() as int)
    } else if has_prefix(t, "arXiv:"@) {
        t.skip(("arXiv:"@).len() as int)
    } else if has_prefix(t, "arxiv:"@) {
        t.skip(("arxiv:"@).len() as int)
    } else {
        t
    };
    match version_start(u) {
        Some(k) => u.take(k),
        None => u,
    }
}

/// Strips the arXiv prefix and the version of an arXiv identifier.
pub fn normalize_arxiv_id(s: &str) -> (r: String)
    ensures
        r@ == arxiv_id_spec(s@),
{
    let c = to_chars(s);
    let t = trim_chars(&c);
    let u = match strip_lit(&t, "https://arxiv.org/abs/") {
        Some(x) => x,
        None => match strip_lit(&t, "http://arxiv.org/abs/") {
            Some(x) => x,
            None => match strip_lit(&t, "arxiv.org/abs/") {
                Some(x) => x,
                None => match strip_lit(&t, "arXiv:") {
                    Some(x) => x,
                    None => match strip_lit(&t, "arxiv:") {
                        Some(x) => x,
                        None => t,
                    },
                },
            },
        },
    };
    let d = crate::text::count_trail_digits(&u);
    let out = if d > 0 && u.len() - d >= 2 && u[u.len() - d - 1] == 'v' {
        slice_chars(&u, 0, u.len() - d - 1)
    } else {
        u
    };
    from_chars(&out)
}

/// Canonical arXiv id: the normalised id lower-cased; `None` when empty.
pub fn canonical_arxiv(s: &str) -> (r: Option<String>)
    ensures
        match r {
            Some(v) => v@ == spec_to_lowercase(arxiv_id_spec(s@)) && v@.len() > 0,
            None => spec_to_lowercase(arxiv_id_spec(s@)).len() == 0,
        },
{
    let n = normalize_arxiv_id(s);
    let nc = to_chars(n.as_str());
    let low = lowercase_chars(&nc);
    if low.len() == 0 {
        None
    } else {
        Some(from_chars(&low))
    }
}

// ── LIKE patterns and FTS queries ──────────────────────────────────────────

/// One char of a token escaped for `LIKE ... ESCAPE '\'`.
pub open spec fn like_escape_char(c: char) -> Seq<char> {
    if c == '\\' {
        seq!['\\', '\\']
    } else if c == '%' {
        seq!['\\', '%']
    } else if c == '_' {
        seq!['\\', '_']
    } else {
        seq![c]
    }
}

/// A token with `\`, `%` and `_` escaped.
pub open spec fn like_escape(s: Seq<char>) -> Seq<char>
    decreases s.len(),
{
    if s.len() == 0 {
        seq![]
    } else {
        like_escape(s.drop_last()) + like_escape_char(s.last())
    }
}

/// Substring pattern for `LIKE` that matches `token` literally: `%` + escaped
/// token + `%` (to be used with `ESCAPE '\'`).
pub fn like_pattern(token: &str) -> (r: String)
    ensures
        r@ == seq!['%'] + like_escape(token@) + seq!['%'],
{
    let c = to_chars(token);
    let mut out: Vec<char> = Vec::new();
    out.push('%');
    let mut i: usize = 0;
    while i < c.len()
        invariant
            i <= c.len(),
            out@ == seq!['%'] + like_escape(c@.take(i as int)),
        decreases c.len() - i,
    {
        proof {
            assert(c@.take(i + 1).drop_last() == c@.take(i as int));
            assert(c@.take(i + 1).last() == c@[i as int]);
        }
        let ch = c[i];
        if ch == '\\' || ch == '%' || ch == '_' {
            out.push('\\');
        }
        out.push(ch);
        i = i + 1;
    }
    assert(c@.take(c.len() as int) == c@);
    out.push('%');
    from_chars(&out)
}

/// Undoing the escape: `\x` gives `x`, any other char stands for itself.
pub open spec fn like_unescape(s: Seq<char>) -> Seq<char>
    decreases s.len(),
{
    if s.len() == 0 {
        seq![]
    } else if s[0] == '\\' && s.len() >= 2 {
        seq![s[1]] + like_unescape(s.skip(2))
    } else {
        seq![s[0]] + like_unescape(s.skip(1))
    }
}

proof fn lemma_escape_front(c: char, s: Seq<char>)
    ensures
        like_escape(seq![c] + s) == like_escape_char(c) + like_escape(s),
    decreases s.len(),
{
    if s.len() == 0 {
        assert((seq![c] + s).drop_last() == Seq::<char>::empty());
        assert(seq![c] + s == seq![c]);
        assert(like_escape(Seq::<char>::empty()) == Seq::<char>::empty());
        assert(like_escape(seq![c]) == like_escape(Seq::<char>::empty()) + like_escape_char(c));
        assert(like_escape_char(c) + Seq::<char>::empty() == like_escape_char(c));
    } else {
        lemma_escape_front(c, s.drop_last());
        assert((seq![c] + s).drop_last() == seq![c] + s.drop_last());
        assert((seq![c] + s).last() == s.last());
        assert(like_escape(seq![c] + s) == like_escape(seq![c] + s.drop_last()) + like_escape_char(
            s.last(),
        ));
        assert(like_escape(s) == like_escape(s.drop_last()) + like_escape_char(s.last()));
        assert(like_escape_char(c) + like_escape(s.drop_last()) + like_escape_char(s.last())
            == like_escape_char(c) + (like_escape(s.drop_last()) + like_escape_char(s.last())));
    }
}

/// The LIKE escape loses nothing: unescaping the escaped token gives it back.
pub proof fn lemma_like_escape_roundtrip(s: Seq<char>)
    ensures
        like_unescape(like_escape(s)) == s,
    decreases s.len(),
{
    if s.len() > 0 {
        let rest = s.drop_first();
        assert(s == seq![s[0]] + rest);
        lemma_escape_front(s[0], rest);
        lemma_like_escape_roundtrip(rest);
        let e = like_escape_char(s[0]) + like_escape(rest);
        if s[0] == '\\' || s[0] == '%' || s[0] == '_' {
            assert(e.skip(2) == like_escape(rest));
            assert(e[0] == '\\' && e[1] == s[0]);
        } else {
            assert(e.skip(1) == like_escape(rest));
            assert(e[0] == s[0]);
        }
    }
}

/// A search token quoted as an FTS phrase: `"` + token without `"` + `"`.
pub open spec fn fts_phrase(t: Seq<char>) -> Seq<char> {
    seq!['"'] + drop_quotes(t) + seq!['"']
}

/// `t` without its `"` chars.
pub open spec fn drop_quotes(t: Seq<char>) -> Seq<char>
    decreases t.len(),
{
    if t.len() == 0 {
        seq![]
    } else if t.last() == '"' {
        drop_quotes(t.drop_last())
    } else {
        drop_quotes(t.drop_last()).push(t.last())
    }
}

fn fts_phrase_chars(t: &Vec<char>) -> (r: Vec<char>)
    ensures
        r@ == fts_phrase(t@),
{
    let mut out: Vec<char> = Vec::new();
    out.push('"');
    let mut i: usize = 0;
    while i < t.len()
        invariant
            i <= t.len(),
            out@ == seq!['"'] + drop_quotes(t@.take(i as int)),
        decreases t.len() - i,
    {
        proof {
            assert(t@.take(i + 1).drop_last() == t@.take(i as int));
            assert(t@.take(i + 1).last() == t@[i as int]);
        }
        if t[i] != '"' {
            out.push(t[i]);
        }
        i = i + 1;
    }
    assert(t@.take(t.len() as int) == t@);
    out.push('"');
    out
}

/// An FTS5 `MATCH` expression: each token as a quoted phrase, separated by
/// spaces (an implicit AND).
pub open spec fn fts_match_spec(tokens: Seq<Seq<char>>) -> Seq<char> {
    crate::text::join_spec(tokens.map_values(|t: Seq<char>| fts_phrase(t)), seq![' '])
}

/// Builds the FTS5 `MATCH` expression of the search tokens.
pub fn build_fts_match_expr(tokens: &Vec<String>) -> (r: String)
    ensures
        r@ == fts_match_spec(crate::models::strings_view(tokens@)),
{
    let ghost tv = crate::models::strings_view(tokens@);
    let mut parts: Vec<Vec<char>> = Vec::new();
    let mut i: usize = 0;
    while i < tokens.len()
        invariant
            i <= tokens.len(),
            tv == crate::models::strings_view(tokens@),
            parts@.map_values(|p: Vec<char>| p@) == tv.take(i as int).map_values(
                |t: Seq<char>| fts_phrase(t),
            ),
        decreases tokens.len() - i,
    {
        let t = to_chars(tokens[i].as_str());
        let ghost before = parts@.map_values(|p: Vec<char>| p@);
        parts.push(fts_phrase_chars(&t));
        proof {
            assert(tv.take(i + 1) == tv.take(i as int).push(tv[i as int]));
            assert(parts@.map_values(|p: Vec<char>| p@) == before.push(fts_phrase(tv[i as int])));
        }
        i = i + 1;
    }
    assert(tv.take(tokens.len() as int) == tv);
    let mut sep: Vec<char> = Vec::new();
    sep.push(' ');
    assert(sep@ == seq![' ']);
    let out = crate::text::join_chars(&parts, &sep);
    from_chars(&out)
}

// ── the identity columns an entry is written with ─────────────────────────

/// `s` when it is not empty.
pub open spec fn nonempty(s: Seq<char>) -> Option<Seq<char>> {
    if s.len() > 0 {
        Some(s)
    } else {
        None
    }
}

/// An optional identifier put in canonical form by `f`, absent when that is empty.
pub open spec fn canon_opt(o: Option<Seq<char>>, f: spec_fn(Seq<char>) -> Seq<char>) -> Option<Seq<char>> {
    match o {
        Some(s) => nonempty(f(s)),
        None => None,
    }
}

/// The citation key as stored (see [`sanitize_citation_key`]).
pub open spec fn key_form(s: Seq<char>) -> Seq<char> {
    keep_cite_chars(trim_spec(s))
}

/// The canonical arXiv id (see [`canonical_arxiv`]).
pub open spec fn arxiv_form(s: Seq<char>) -> Seq<char> {
    spec_to_lowercase(arxiv_id_spec(s))
}

/// The columns an entry's identity is stored in: the sanitised citation key and
/// the canonical DOI, arXiv id and ISBN.
#[derive(Debug)]
pub struct EntryKeys {
    pub citation_key: Option<String>,
    pub doi_canonical: Option<String>,
    pub arxiv_canonical: Option<String>,
    pub isbn_canonical: Option<String>,
}

fn canonical_of(o: &Option<String>, which: u8) -> (r: Option<String>)
    requires
        which < 4,
    ensures
        opt_view(r) == canon_opt(opt_view(*o), if which == 0 {
            |s: Seq<char>| key_form(s)
        } else if which == 1 {
            |s: Seq<char>| doi_canonical_text(s)
        } else if which == 2 {
            |s: Seq<char>| arxiv_form(s)
        } else {
            |s: Seq<char>| isbn_chars(s)
        }),
{
    match o {
        None => None,
        Some(s) => {
            let t = s.as_str();
            if which == 0 {
                sanitize_citation_key(t)
            } else if which == 1 {
                canonical_doi(t)
            } else if which == 2 {
                canonical_arxiv(t)
            } else {
                canonical_isbn(t)
            }
        },
    }
}

/// The identity columns creating or updating an entry writes for `input` (a key
/// that sanitises to nothing is stored as none, meaning "generate it").
pub fn entry_keys(input: &EntryInput) -> (r: EntryKeys)
    ensures
        opt_view(r.citation_key) == canon_opt(opt_view(input.citation_key), |s: Seq<char>| key_form(s)),
        opt_view(r.doi_canonical) == canon_opt(opt_view(input.doi), |s: Seq<char>| doi_canonical_text(s)),
        opt_view(r.arxiv_canonical) == canon_opt(opt_view(input.arxiv_id), |s: Seq<char>| arxiv_form(s)),
        opt_view(r.isbn_canonical) == canon_opt(opt_view(input.isbn), |s: Seq<char>| isbn_chars(s)),
{
    EntryKeys {
        citation_key: canonical_of(&input.citation_key, 0),
        doi_canonical: canonical_of(&input.doi, 1),
        arxiv_canonical: canonical_of(&input.arxiv_id, 2),
        isbn_canonical: canonical_of(&input.isbn, 3),
    }
}

/// What a search for an existing entry with the same identifiers looks for: the
/// canonical DOI, arXiv id and ISBN; nothing at all (no search) when none of the
/// three has a canonical form.
pub fn duplicate_probe(doi: &Option<String>, arxiv_id: &Option<String>, isbn: &Option<String>) -> (r: Option<
    (Option<String>, Option<String>, Option<String>),
>)
    ensures
        match r {
            Some(p) => {
                &&& opt_view(p.0) == canon_opt(opt_view(*doi), |s: Seq<char>| doi_canonical_text(s))
                &&& opt_view(p.1) == canon_opt(opt_view(*arxiv_id), |s: Seq<char>| arxiv_form(s))
                &&& opt_view(p.2) == canon_opt(opt_view(*isbn), |s: Seq<char>| isbn_chars(s))
                &&& !(p.0 is None && p.1 is None && p.2 is None)
            },
            None => {
                &&& canon_opt(opt_view(*doi), |s: Seq<char>| doi_canonical_text(s)) is None
                &&& canon_opt(opt_view(*arxiv_id), |s: Seq<char>| arxiv_form(s)) is None
                &&& canon_opt(opt_view(*isbn), |s: Seq<char>| isbn_chars(s)) is None
            },
        },
{
    let d = canonical_of(doi, 1);
    let a = canonical_of(arxiv_id, 2);
    let i = canonical_of(isbn, 3);
    if d.is_none() && a.is_none() && i.is_none() {
        None
    } else {
        Some((d, a, i))
    }
}


// ── attachments ───────────────────────────────────────────────────────────

/// An attachment counts as a PDF when its MIME type, lowercased, contains `pdf`.
pub open spec fn is_pdf_mime(mime: Seq<char>) -> bool {
    contains_seq(spec_to_lowercase(mime), "pdf"@)
}

/// Whether an entry has a PDF among its attachments, given their MIME types.
pub fn has_pdf_attachment(mime_types: &Vec<String>) -> (r: bool)
    ensures
        r == exists|k: int| 0 <= k < mime_types.len() && is_pdf_mime(#[trigger] mime_types@[k]@),
{
    let mut i: usize = 0;
    while i < mime_types.len()
        invariant
            i <= mime_types.len(),
            forall|k: int| 0 <= k < i ==> !is_pdf_mime(#[trigger] mime_types@[k]@),
        decreases mime_types.len() - i,
    {
        let lower = lowercase_chars(&to_chars(mime_types[i].as_str()));
        if contains_lit(&lower, "pdf") {
            assert(is_pdf_mime(mime_types@[i as int]@));
            return true;
        }
        i = i + 1;
    }
    false
}

} // verus!

verus! {

proof fn lemma_trim_framed(s: Seq<char>)
    requires
        s.len() > 0,
        !is_ws_spec(s[0]),
        !is_ws_spec(s.last()),
    ensures
        trim_spec(s) == s,
{
    assert(lead_ws(s) == 0);
    assert(s.skip(0) =~= s);
    assert(trail_ws(s) == 0);
    assert(s.take(s.len() as int) =~= s);
}

proof fn lemma_not_prefix(a: Seq<char>, q: Seq<char>, k: int)
    requires
        0 <= k < a.len(),
        k < q.len(),
        a[k] != q[k],
    ensures
        !has_prefix(a, q),
{
    if has_prefix(a, q) {
        assert(a.subrange(0, q.len() as int)[k] == a[k]);
    }
}

/// A DOI typed with a resolver or `doi:` prefix canonicalises as the bare DOI:
/// for every DOI `d` (non-empty, not starting or ending in whitespace), each of
/// `https://doi.org/`, `http://doi.org/`, `https://dx.doi.org/`,
/// `http://dx.doi.org/`, `doi:` and `DOI:` in front of it is dropped, and the
/// rest is lower-cased; a bare DOI with none of them is lower-cased as it is.
pub proof fn lemma_doi_prefixes_are_dropped(d: Seq<char>)
    requires
        d.len() > 0,
        !is_ws_spec(d[0]),
        !is_ws_spec(d.last()),
    ensures
        doi_canonical_text("https://doi.org/"@ + d) == spec_to_lowercase(d),
        doi_canonical_text("http://doi.org/"@ + d) == spec_to_lowercase(d),
        doi_canonical_text("https://dx.doi.org/"@ + d) == spec_to_lowercase(d),
        doi_canonical_text("http://dx.doi.org/"@ + d) == spec_to_lowercase(d),
        doi_canonical_text("doi:"@ + d) == spec_to_lowercase(d),
        doi_canonical_text("DOI:"@ + d) == spec_to_lowercase(d),
        (!has_prefix(d, "https://doi.org/"@) && !has_prefix(d, "http://doi.org/"@) && !has_prefix(d, "https://dx.doi.org/"@) && !has_prefix(d, "http://dx.doi.org/"@) && !has_prefix(d, "doi:"@) && !has_prefix(d, "DOI:"@)) ==> doi_canonical_text(d) == spec_to_lowercase(d),
{
    reveal_strlit("https://doi.org/");
    assert("https://doi.org/"@.len() == 16);
    reveal_strlit("http://doi.org/");
    assert("http://doi.org/"@.len() == 15);
    reveal_strlit("https://dx.doi.org/");
    assert("https://dx.doi.org/"@.len() == 19);
    reveal_strlit("http://dx.doi.org/");
    assert("http://dx.doi.org/"@.len() == 18);
    reveal_strlit("doi:");
    assert("doi:"@.len() == 4);
    reveal_strlit("DOI:");
    assert("DOI:"@.len() == 4);
    {
        let s = "https://doi.org/"@ + d;
        lemma_trim_framed(s);
        assert(s.subrange(0, 16) =~= "https://doi.org/"@);
        assert(s.skip(16) =~= d);
    }
    {
        let s = "http://doi.org/"@ + d;
        lemma_trim_framed(s);
        assert(s.subrange(0, 15) =~= "http://doi.org/"@);
        assert(s.skip(15) =~= d);
        lemma_not_prefix(s, "https://doi.org/"@, 4);
    }
    {
        let s = "https://dx.doi.org/"@ + d;
        lemma_trim_framed(s);
        assert(s.subrange(0, 19) =~= "https://dx.doi.org/"@);
        assert(s.skip(19) =~= d);
        lemma_not_prefix(s, "https://doi.org/"@, 9);
        lemma_not_prefix(s, "http://doi.org/"@, 4);
    }
    {
        let s = "http://dx.doi.org/"@ + d;
        lemma_trim_framed(s);
        assert(s.subrange(0, 18) =~= "http://dx.doi.org/"@);
        assert(s.skip(18) =~= d);
        lemma_not_prefix(s, "https://doi.org/"@, 4);
        lemma_not_prefix(s, "http://doi.org/"@, 8);
        lemma_not_prefix(s, "https://dx.doi.org/"@, 4);
    }
    {
        let s = "doi:"@ + d;
        lemma_trim_framed(s);
        assert(s.subrange(0, 4) =~= "doi:"@);
        assert(s.skip(4) =~= d);
        lemma_not_prefix(s, "https://doi.org/"@, 0);
        lemma_not_prefix(s, "http://doi.org/"@, 0);
        lemma_not_prefix(s, "https://dx.doi.org/"@, 0);
        lemma_not_prefix(s, "http://dx.doi.org/"@, 0);
    }
    {
        let s = "DOI:"@ + d;
        lemma_trim_framed(s);
        assert(s.subrange(0, 4) =~= "DOI:"@);
        assert(s.skip(4) =~= d);
        lemma_not_prefix(s, "https://doi.org/"@, 0);
        lemma_not_prefix(s, "http://doi.org/"@, 0);
        lemma_not_prefix(s, "https://dx.doi.org/"@, 0);
        lemma_not_prefix(s, "http://dx.doi.org/"@, 0);
        lemma_not_prefix(s, "doi:"@, 0);
    }
    lemma_trim_framed(d);
}

} // verus!
