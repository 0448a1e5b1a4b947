//! BibTeX import and export rules: author lists, entry-type mapping, citation
//! keys, and the text of one exported entry.

use nom_bibtex::model::StringValueType;
use vstd::prelude::*;

use crate::models::{
    authors_view, opt_view, pairs_view, strings_view, AuthorInput, AuthorView, EntryDetail,
    EntryInput,
};
use crate::order::{sort_by_key_spec, sort_pairs_by_key};
use crate::text::{
    chars_eq, first_word, is_lit, first_word_chars, from_chars, i64_text, int_text, is_ascii_alnum,
    is_ascii_alnum_spec, join_chars, join_spec, last_word, last_word_chars, lowercase_chars,
    occurs_at, pad_right, pad_right_chars, parse_i64, parse_i64_spec, push_all,
    slice_chars, spec_to_lowercase, to_chars, trim_chars, trim_spec,
};

verus! {

// ── splitting an author list ───────────────────────────────────────────────

/// The separator between authors.
pub open spec fn and_sep() -> Seq<char> {
    seq![' ', 'a', 'n', 'd', ' ']
}

/// Scan of an author list from index `i` with brace depth `depth`, the current
/// part starting at `start`: a part ends at each `" and "` met at depth 0.
pub open spec fn split_scan(s: Seq<char>, i: int, depth: int, start: int) -> Seq<Seq<char>>
    decreases s.len() - i,
{
    if i >= s.len() || i < 0 {
        seq![s.subrange(start, s.len() as int)]
    } else if s[i] == '{' {
        split_scan(s, i + 1, depth + 1, start)
    } else if s[i] == '}' {
        split_scan(s, i + 1, depth - 1, start)
    } else if s[i] == ' ' && depth == 0 && occurs_at(s, and_sep(), i) {
        seq![s.subrange(start, i)] + split_scan(s, i + 5, depth, i + 5)
    } else {
        split_scan(s, i + 1, depth, start)
    }
}

/// The parts of an author list: split at `" and "` outside braces only.
pub open spec fn split_authors_spec(s: Seq<char>) -> Seq<Seq<char>> {
    split_scan(s, 0, 0, 0)
}

/// Splits an author list at `" and "`, ignoring an `and` inside braces
/// (`{Smith and Jones Inc}` stays one part).
pub fn split_authors(s: &Vec<char>) -> (parts: Vec<Vec<char>>)
    ensures
        parts@.map_values(|p: Vec<char>| p@) == split_authors_spec(s@),
{
    let ghost sep = and_sep();
    let mut parts: Vec<Vec<char>> = Vec::new();
    let mut depth: i128 = 0;
    let mut start: usize = 0;
    let mut i: usize = 0;
    while i < s.len()
        invariant
            start <= i <= s.len(),
            -(i as int) <= depth <= i as int,
            parts@.map_values(|p: Vec<char>| p@) + split_scan(s@, i as int, depth as int, start as int)
                == split_authors_spec(s@),
        decreases s.len() - i,
    {
        let c = s[i];
        if c == '{' {
            depth = depth + 1;
            i = i + 1;
        } else if c == '}' {
            depth = depth - 1;
            i = i + 1;
        } else if c == ' ' && depth == 0 && matches_and(s, i) {
            let part = slice_chars(s, start, i);
            let ghost before = parts@.map_values(|p: Vec<char>| p@);
            parts.push(part);
            assert(parts@.map_values(|p: Vec<char>| p@) == before.push(part@));
            start = i + 5;
            i = i + 5;
        } else {
            i = i + 1;
        }
    }
    let last = slice_chars(s, start, s.len());
    let ghost before = parts@.map_values(|p: Vec<char>| p@);
    parts.push(last);
    assert(parts@.map_values(|p: Vec<char>| p@) == before.push(last@));
    parts
}

/// `" and "` starts at `i`.
fn matches_and(s: &Vec<char>, i: usize) -> (r: bool)
    ensures
        r == occurs_at(s@, and_sep(), i as int),
{
    if i > s.len() || s.len() - i < 5 {
        return false;
    }
    let r = s[i] == ' ' && s[i + 1] == 'a' && s[i + 2] == 'n' && s[i + 3] == 'd' && s[i + 4] == ' ';
    proof {
        if r {
            assert(s@.subrange(i as int, i + 5) =~= and_sep());
        } else {
            let sub = s@.subrange(i as int, i + 5);
            assert(sub[0] == s@[i as int] && sub[1] == s@[i + 1] && sub[2] == s@[i + 2]
                && sub[3] == s@[i + 3] && sub[4] == s@[i + 4]);
            if sub == and_sep() {
                assert(and_sep()[1] == 'a');
            }
        }
    }
    r
}

// ── one author ─────────────────────────────────────────────────────────────

/// Index of the first `c` in `s`, if any (`str::find`).
pub open spec fn first_index_of(s: Seq<char>, c: char) -> Option<int>
    decreases s.len(),
{
    if s.len() == 0 {
        None
    } else if s[0] == c {
        Some(0)
    } else {
        match first_index_of(s.drop_first(), c) {
            Some(k) => Some(k + 1),
            None => None,
        }
    }
}

proof fn lemma_first_index_of(s: Seq<char>, c: char)
    ensures
        first_index_of(s, c) matches Some(k) ==> 0 <= k < s.len() && s[k] == c && forall|j: int|
            0 <= j < k ==> s[j] != c,
        first_index_of(s, c) is None ==> forall|j: int| 0 <= j < s.len() ==> s[j] != c,
    decreases s.len(),
{
    if s.len() > 0 && s[0] != c {
        lemma_first_index_of(s.drop_first(), c);
        assert forall|j: int| 1 <= j < s.len() implies s[j] == s.drop_first()[j - 1] by {}
    }
}

pub fn find_char(s: &Vec<char>, c: char) -> (r: Option<usize>)
    ensures
        match r {
            Some(k) => k < s@.len() && first_index_of(s@, c) == Some(k as int),
            None => first_index_of(s@, c) is None,
        },
{
    let mut i: usize = 0;
    while i < s.len()
        invariant
            i <= s.len(),
            forall|j: int| 0 <= j < i ==> s@[j] != c,
        decreases s.len() - i,
    {
        if s[i] == c {
            proof {
                lemma_first_index_of(s@, c);
                lemma_first_index_unique(s@, c, i as int);
            }
            return Some(i);
        }
        i = i + 1;
    }
    proof {
        lemma_first_index_of(s@, c);
        if first_index_of(s@, c) is Some {
            let k = first_index_of(s@, c)->0;
            assert(s@[k] == c);
        }
    }
    None
}

proof fn lemma_first_index_unique(s: Seq<char>, c: char, i: int)
    requires
        0 <= i < s.len(),
        s[i] == c,
        forall|j: int| 0 <= j < i ==> s[j] != c,
    ensures
        first_index_of(s, c) == Some(i),
{
    lemma_first_index_of(s, c);
    match first_index_of(s, c) {
        Some(k) => {
            if k < i {
                assert(s[k] != c);
            } else if k > i {
                assert(s[i] != c);
            }
        },
        None => {
            assert(s[i] != c);
        },
    }
}

/// `p` wrapped in braces: starts with `{` and ends with `}`.
pub open spec fn is_braced(p: Seq<char>) -> bool {
    p.len() > 0 && p[0] == '{' && p.last() == '}'
}

/// An author that only has a name (and maybe name parts and the organisation flag).
pub open spec fn author_spec(
    name: Seq<char>,
    given: Option<Seq<char>>,
    family: Option<Seq<char>>,
    org: bool,
) -> AuthorView {
    AuthorView {
        name,
        given_name: given,
        family_name: family,
        name_original: None,
        original_script: None,
        reading_family: None,
        reading_given: None,
        email: None,
        orcid: None,
        is_organization: org,
        middle_name: None,
        suffix: None,
        name_particle: None,
        given_name_original: None,
        family_name_original: None,
        homepage_url: None,
        notes: None,
        identifiers: Seq::empty(),
    }
}

/// What one part of an author list becomes.
///
/// - blank → nothing;
/// - `{...}` → an organisation named by the trimmed inside (nothing if that is blank);
/// - `Last, First` → a person named `First Last` with both parts (only the family
///   name when `First` is blank);
/// - anything else → a person with only a name.
pub open spec fn author_of_part(part: Seq<char>) -> Option<AuthorView> {
    let raw = trim_spec(part);
    if raw.len() == 0 {
        None
    } else if is_braced(raw) {
        let inner = trim_spec(raw.subrange(1, raw.len() - 1));
        if inner.len() == 0 {
            None
        } else {
            Some(author_spec(inner, None, None, true))
        }
    } else {
        match first_index_of(raw, ',') {
            Some(k) => {
                let last = trim_spec(raw.subrange(0, k));
                let first = trim_spec(raw.subrange(k + 1, raw.len() as int));
                if first.len() == 0 {
                    Some(author_spec(last, None, Some(last), false))
                } else {
                    Some(author_spec(first + seq![' '] + last, Some(first), Some(last), false))
                }
            },
            None => Some(author_spec(raw, None, None, false)),
        }
    }
}

/// The authors of a BibTeX `author` value.
pub open spec fn parse_authors_spec(s: Seq<char>) -> Seq<AuthorView> {
    split_authors_spec(s).filter_map(|p: Seq<char>| author_of_part(p))
}

fn author_from_part(part: &Vec<char>) -> (r: Option<AuthorInput>)
    ensures
        match r {
            Some(a) => author_of_part(part@) == Some(a@),
            None => author_of_part(part@) is None,
        },
{
    let raw = trim_chars(part);
    if raw.len() == 0 {
        return None;
    }
    if raw[0] == '{' && raw[raw.len() - 1] == '}' {
        let mid = slice_chars(&raw, 1, raw.len() - 1);
        let inner = trim_chars(&mid);
        if inner.len() == 0 {
            return None;
        }
        let mut a = AuthorInput::named(from_chars(&inner));
        a.is_organization = true;
        return Some(a);
    }
    assert(!is_braced(raw@));
    match find_char(&raw, ',') {
        Some(k) => {
            let last_raw = slice_chars(&raw, 0, k);
            let last = trim_chars(&last_raw);
            let first_raw = slice_chars(&raw, k + 1, raw.len());
            let first = trim_chars(&first_raw);
            if first.len() == 0 {
                let mut a = AuthorInput::named(from_chars(&last));
                a.family_name = Some(from_chars(&last));
                assert(a@ == author_spec(last@, None, Some(last@), false));
                Some(a)
            } else {
                let mut full: Vec<char> = Vec::new();
                push_all(&mut full, &first);
                full.push(' ');
                push_all(&mut full, &last);
                let mut a = AuthorInput::named(from_chars(&full));
                a.given_name = Some(from_chars(&first));
                a.family_name = Some(from_chars(&last));
                assert(full@ == first@ + seq![' '] + last@);
                assert(a@ == author_spec(first@ + seq![' '] + last@, Some(first@), Some(last@), false));
                Some(a)
            }
        },
        None => {
            let a = AuthorInput::named(from_chars(&raw));
            assert(a@ == author_spec(raw@, None, None, false));
            Some(a)
        },
    }
}

/// Splits a BibTeX `author = {...}` value into authors.
///
/// `" and "` separates authors only outside braces. A part wholly inside braces
/// is an organisation; `Last, First` gives a person with name parts; any other
/// part is a person with only a display name. Blank parts are dropped.
pub fn parse_authors(author_str: &str) -> (r: Vec<AuthorInput>)
    ensures
        authors_view(r@) == parse_authors_spec(author_str@),
{
    let s = to_chars(author_str);
    let parts = split_authors(&s);
    let ghost ps = parts@.map_values(|p: Vec<char>| p@);
    let mut out: Vec<AuthorInput> = Vec::new();
    let mut i: usize = 0;
    while i < parts.len()
        invariant
            i <= parts.len(),
            ps == parts@.map_values(|p: Vec<char>| p@),
            ps == split_authors_spec(s@),
            authors_view(out@) == ps.take(i as int).filter_map(|p: Seq<char>| author_of_part(p)),
        decreases parts.len() - i,
    {
        let r = author_from_part(&parts[i]);
        proof {
            assert(ps.take(i + 1).drop_last() == ps.take(i as int));
            assert(ps.take(i + 1).last() == parts@[i as int]@);
        }
        match r {
            Some(a) => {
                let ghost before = authors_view(out@);
                out.push(a);
                assert(authors_view(out@) == before + seq![a@]);
            },
            None => {},
        }
        i = i + 1;
    }
    assert(ps.take(parts.len() as int) == ps);
    out
}

// ── entry types ────────────────────────────────────────────────────────────

/// Internal entry type of a lower-cased BibTeX entry type.
pub open spec fn entry_type_of_lower(t: Seq<char>) -> Seq<char> {
    if t == "article"@ || t == "periodical"@ || t == "suppperiodical"@ {
        "article"@
    } else if t == "book"@ || t == "booklet"@ || t == "collection"@ || t == "mvbook"@ || t
        == "mvcollection"@ || t == "reference"@ || t == "mvreference"@ {
        "book"@
    } else if t == "incollection"@ || t == "inbook"@ || t == "suppbook"@ || t
        == "suppcollection"@ || t == "inreference"@ {
        "bookSection"@
    } else if t == "inproceedings"@ || t == "conference"@ || t == "proceedings"@ || t
        == "mvproceedings"@ {
        "inproceedings"@
    } else if t == "phdthesis"@ || t == "mastersthesis"@ || t == "thesis"@ {
        "thesis"@
    } else if t == "techreport"@ || t == "report"@ {
        "report"@
    } else if t == "unpublished"@ {
        "manuscript"@
    } else if t == "patent"@ {
        "patent"@
    } else if t == "standard"@ {
        "standard"@
    } else if t == "dataset"@ {
        "dataset"@
    } else if t == "software"@ {
        "computerProgram"@
    } else if t == "online"@ || t == "electronic"@ || t == "www"@ || t == "webpage"@ {
        "webpage"@
    } else {
        "misc"@
    }
}


/// Maps a BibTeX entry type (any case) to the library's internal entry type;
/// unknown types become `misc`.
pub fn map_entry_type(bib_type: &str) -> (r: String)
    ensures
        r@ == entry_type_of_lower(spec_to_lowercase(bib_type@)),
{
    let raw = to_chars(bib_type);
    let t = lowercase_chars(&raw);
    let out: &str = if is_lit(&t, "article") || is_lit(&t, "periodical") || is_lit(
        &t,
        "suppperiodical",
    ) {
        "article"
    } else if is_lit(&t, "book") || is_lit(&t, "booklet") || is_lit(&t, "collection") || is_lit(
        &t,
        "mvbook",
    ) || is_lit(&t, "mvcollection") || is_lit(&t, "reference") || is_lit(&t, "mvreference") {
        "book"
    } else if is_lit(&t, "incollection") || is_lit(&t, "inbook") || is_lit(&t, "suppbook")
        || is_lit(&t, "suppcollection") || is_lit(&t, "inreference") {
        "bookSection"
    } else if is_lit(&t, "inproceedings") || is_lit(&t, "conference") || is_lit(
        &t,
        "proceedings",
    ) || is_lit(&t, "mvproceedings") {
        "inproceedings"
    } else if is_lit(&t, "phdthesis") || is_lit(&t, "mastersthesis") || is_lit(&t, "thesis") {
        "thesis"
    } else if is_lit(&t, "techreport") || is_lit(&t, "report") {
        "report"
    } else if is_lit(&t, "unpublished") {
        "manuscript"
    } else if is_lit(&t, "patent") {
        "patent"
    } else if is_lit(&t, "standard") {
        "standard"
    } else if is_lit(&t, "dataset") {
        "dataset"
    } else if is_lit(&t, "software") {
        "computerProgram"
    } else if is_lit(&t, "online") || is_lit(&t, "electronic") || is_lit(&t, "www") || is_lit(
        &t,
        "webpage",
    ) {
        "webpage"
    } else {
        "misc"
    };
    let v = to_chars(out);
    from_chars(&v)
}

} // verus!

verus! {

// ── citation-key suffixes ──────────────────────────────────────────────────

/// Spreadsheet-column letters: 1 → `a`, 26 → `z`, 27 → `aa`, 0 → empty.
pub open spec fn letters(n: nat) -> Seq<char>
    decreases n,
{
    if n == 0 {
        seq![]
    } else {
        letters(((n - 1) / 26) as nat) + seq![(('a' as u32) + ((n - 1) % 26)) as char]
    }
}

/// Distinct numbers give distinct suffixes.
pub proof fn lemma_letters_injective(a: nat, b: nat)
    requires
        letters(a) == letters(b),
    ensures
        a == b,
    decreases a,
{
    if a == 0 || b == 0 {
        if a != b {
            if a != 0 {
                assert(letters(a).len() > 0);
            } else {
                assert(letters(b).len() > 0);
            }
        }
    } else {
        let la = letters(a);
        let lb = letters(b);
        assert(la.last() == lb.last());
        assert(la.drop_last() == letters(((a - 1) / 26) as nat));
        assert(lb.drop_last() == letters(((b - 1) / 26) as nat));
        lemma_letters_injective(((a - 1) / 26) as nat, ((b - 1) / 26) as nat);
        assert(((a - 1) % 26) as u32 == ((b - 1) % 26) as u32);
    }
}

fn letters_chars(n: usize) -> (v: Vec<char>)
    ensures
        v@ == letters(n as nat),
    decreases n,
{
    if n == 0 {
        Vec::new()
    } else {
        let mut v = letters_chars((n - 1) / 26);
        let d: u32 = ((n - 1) % 26) as u32;
        let code: u32 = 97 + d;
        let b: u8 = code as u8;
        v.push(b as char);
        v
    }
}

/// The suffix for the `n`-th collision: 1 → `a`, 26 → `z`, 27 → `aa`, 28 → `ab`.
pub fn suffix_letters(n: usize) -> (s: String)
    ensures
        s@ == letters(n as nat),
{
    let v = letters_chars(n);
    from_chars(&v)
}

/// `n` is the smallest suffix number whose key `base + letters(n)` is not in `used`.
pub open spec fn is_least_free(base: Seq<char>, used: Seq<Seq<char>>, n: nat) -> bool {
    &&& n >= 1
    &&& !used.contains(base + letters(n))
    &&& forall|k: nat| 1 <= k < n ==> used.contains(#[trigger] (base + letters(k)))
}

/// The key that de-duplication picks for `base` given the keys already `used`:
/// `base` itself when free, else `base` with the first free suffix.
pub open spec fn dedup_spec(base: Seq<char>, used: Seq<Seq<char>>) -> Seq<char> {
    if !used.contains(base) {
        base
    } else {
        base + letters(choose|n: nat| is_least_free(base, used, n))
    }
}

proof fn lemma_least_free_unique(base: Seq<char>, used: Seq<Seq<char>>, n: nat, m: nat)
    requires
        is_least_free(base, used, n),
        is_least_free(base, used, m),
    ensures
        n == m,
{
    if n < m {
        assert(used.contains(base + letters(n)));
    } else if m < n {
        assert(used.contains(base + letters(m)));
    }
}

/// `n - 1` distinct candidates all lie in `used`, so `n - 1 <= |used|`.
proof fn lemma_candidates_bound(base: Seq<char>, used: Seq<Seq<char>>, n: nat)
    requires
        n >= 1,
        forall|k: nat| 1 <= k < n ==> used.contains(#[trigger] (base + letters(k))),
    ensures
        n - 1 <= used.len(),
{
    let cands = Seq::new((n - 1) as nat, |i: int| base + letters((i + 1) as nat));
    assert forall|i: int, j: int| 0 <= i < cands.len() && 0 <= j < cands.len() && i != j implies cands[i]
        != cands[j] by {
        if cands[i] == cands[j] {
            let li = letters((i + 1) as nat);
            let lj = letters((j + 1) as nat);
            assert((base + li).subrange(base.len() as int, (base + li).len() as int) == li);
            assert((base + lj).subrange(base.len() as int, (base + lj).len() as int) == lj);
            lemma_letters_injective((i + 1) as nat, (j + 1) as nat);
        }
    }
    assert(cands.no_duplicates());
    cands.unique_seq_to_set();
    assert forall|x: Seq<char>| cands.to_set().contains(x) implies used.to_set().contains(x) by {
        let i = choose|i: int| 0 <= i < cands.len() && cands[i] == x;
        assert(used.contains(base + letters((i + 1) as nat)));
    }
    vstd::seq_lib::seq_to_set_is_finite(used);
    vstd::set_lib::lemma_len_subset(cands.to_set(), used.to_set());
    used.lemma_cardinality_of_set();
}

/// `v` holds a string whose chars are `k`.
fn contains_key(v: &Vec<String>, k: &Vec<char>) -> (r: bool)
    ensures
        r == strings_view(v@).contains(k@),
{
    let mut i: usize = 0;
    while i < v.len()
        invariant
            i <= v.len(),
            forall|j: int| 0 <= j < i ==> v@[j]@ != k@,
        decreases v.len() - i,
    {
        let c = to_chars(v[i].as_str());
        if chars_eq(&c, k) {
            assert(strings_view(v@)[i as int] == k@);
            return true;
        }
        i = i + 1;
    }
    proof {
        if strings_view(v@).contains(k@) {
            let j = choose|j: int| 0 <= j < strings_view(v@).len() && strings_view(v@)[j] == k@;
            assert(v@[j]@ == k@);
        }
    }
    false
}

/// Returns `base` if it is not yet in `used`, otherwise `base` followed by the
/// first suffix `a`, `b`, ... that gives an unused key; the key returned is
/// added to `used`.
pub fn dedup_key(base: &str, used: &mut Vec<String>) -> (key: String)
    requires
        old(used).len() < usize::MAX,
    ensures
        key@ == dedup_spec(base@, strings_view(old(used)@)),
        !strings_view(old(used)@).contains(key@),
        strings_view(final(used)@) == strings_view(old(used)@).push(key@),
{
    let ghost u = strings_view(used@);
    let b = to_chars(base);
    if !contains_key(used, &b) {
        let key = from_chars(&b);
        used.push(from_chars(&b));
        assert(strings_view(used@) == u.push(key@));
        return key;
    }
    let mut n: usize = 1;
    loop
        invariant
            used@ == old(used)@,
            u == strings_view(used@),
            b@ == base@,
            u.contains(base@),
            used.len() < usize::MAX,
            1 <= n <= used.len() + 1,
            forall|k: nat| 1 <= k < n ==> u.contains(#[trigger] (base@ + letters(k))),
        decreases used.len() + 1 - n,
    {
        let suf = letters_chars(n);
        let mut cand: Vec<char> = Vec::new();
        push_all(&mut cand, &b);
        push_all(&mut cand, &suf);
        if !contains_key(used, &cand) {
            proof {
                assert(is_least_free(base@, u, n as nat));
                lemma_least_free_unique(base@, u, n as nat, choose|m: nat| is_least_free(base@, u, m));
            }
            let key = from_chars(&cand);
            used.push(from_chars(&cand));
            assert(strings_view(used@) == u.push(key@));
            return key;
        }
        proof {
            lemma_candidates_bound(base@, u, (n + 1) as nat);
        }
        n = n + 1;
    }
}

// ── assigning export keys ──────────────────────────────────────────────────

/// Keys for `(pinned key, generated base)` items, in order: a pinned key is kept,
/// a generated one is de-duplicated against every pinned key and the generated
/// keys before it.
pub open spec fn assign_from(
    items: Seq<(Option<Seq<char>>, Seq<char>)>,
    used: Seq<Seq<char>>,
) -> Seq<Seq<char>>
    decreases items.len(),
{
    if items.len() == 0 {
        seq![]
    } else {
        match items[0].0 {
            Some(k) => seq![k] + assign_from(items.drop_first(), used),
            None => {
                let key = dedup_spec(items[0].1, used);
                seq![key] + assign_from(items.drop_first(), used.push(key))
            },
        }
    }
}

/// The pinned keys among `items`, in order.
pub open spec fn pinned_keys(items: Seq<(Option<Seq<char>>, Seq<char>)>) -> Seq<Seq<char>> {
    items.filter_map(|it: (Option<Seq<char>>, Seq<char>)| it.0)
}

/// The final citation keys for export.
pub open spec fn assign_keys_spec(items: Seq<(Option<Seq<char>>, Seq<char>)>) -> Seq<Seq<char>> {
    assign_from(items, pinned_keys(items))
}

/// The view of the items `assign_keys_from` takes.
pub open spec fn items_view(items: Seq<(Option<String>, String)>) -> Seq<(Option<Seq<char>>, Seq<char>)> {
    items.map_values(|it: (Option<String>, String)| (opt_view(it.0), it.1@))
}

/// Number of generated (unpinned) items.
pub open spec fn count_auto(items: Seq<(Option<Seq<char>>, Seq<char>)>) -> nat
    decreases items.len(),
{
    if items.len() == 0 {
        0
    } else {
        (if items.last().0 is None { 1nat } else { 0nat }) + count_auto(items.drop_last())
    }
}

proof fn lemma_pinned_len(items: Seq<(Option<Seq<char>>, Seq<char>)>)
    ensures
        pinned_keys(items).len() + count_auto(items) == items.len(),
    decreases items.len(),
{
    if items.len() > 0 {
        lemma_pinned_len(items.drop_last());
    }
}

proof fn lemma_assign_from_split(
    items: Seq<(Option<Seq<char>>, Seq<char>)>,
    used: Seq<Seq<char>>,
    i: int,
)
    requires
        0 <= i < items.len(),
    ensures
        assign_from(items.subrange(i, items.len() as int), used) == seq![
            match items[i].0 {
                Some(k) => k,
                None => dedup_spec(items[i].1, used),
            },
        ] + assign_from(
            items.subrange(i + 1, items.len() as int),
            match items[i].0 {
                Some(k) => used,
                None => used.push(dedup_spec(items[i].1, used)),
            },
        ),
{
    assert(items.subrange(i, items.len() as int).drop_first() == items.subrange(
        i + 1,
        items.len() as int,
    ));
}

/// Assigns the export citation key of each `(pinned key, generated base)` item:
/// pinned keys are kept as they are and reserved first; each generated base is
/// made unique within the file with the suffixes `a`, `b`, `c`, ...
pub fn assign_keys_from(items: &Vec<(Option<String>, String)>) -> (keys: Vec<String>)
    requires
        items.len() < usize::MAX,
    ensures
        strings_view(keys@) == assign_keys_spec(items_view(items@)),
{
    let ghost iv = items_view(items@);
    let mut used: Vec<String> = Vec::new();
    let mut i: usize = 0;
    while i < items.len()
        invariant
            i <= items.len(),
            iv == items_view(items@),
            strings_view(used@) == pinned_keys(iv.take(i as int)),
        decreases items.len() - i,
    {
        proof {
            assert(iv.take(i + 1).drop_last() == iv.take(i as int));
        }
        match &items[i].0 {
            Some(k) => {
                let ghost before = strings_view(used@);
                used.push(k.clone());
                assert(strings_view(used@) == before + seq![k@]);
            },
            None => {},
        }
        i = i + 1;
    }
    assert(iv.take(items.len() as int) == iv);
    let ghost pinned = strings_view(used@);
    proof {
        lemma_pinned_len(iv);
    }
    let mut keys: Vec<String> = Vec::new();
    let mut j: usize = 0;
    let ghost mut autos: nat = 0;
    while j < items.len()
        invariant
            j <= items.len(),
            keys.len() == j,
            iv == items_view(items@),
            pinned == pinned_keys(iv),
            pinned.len() + count_auto(iv) == iv.len(),
            strings_view(used@).len() == pinned.len() + autos,
            autos + count_auto(iv.subrange(j as int, iv.len() as int)) == count_auto(iv),
            strings_view(keys@) + assign_from(iv.subrange(j as int, iv.len() as int), strings_view(used@))
                == assign_keys_spec(iv),
        decreases items.len() - j,
    {
        proof {
            lemma_assign_from_split(iv, strings_view(used@), j as int);
            lemma_count_auto_front(iv.subrange(j as int, iv.len() as int));
            assert(iv.subrange(j as int, iv.len() as int).drop_first() == iv.subrange(
                j + 1,
                iv.len() as int,
            ));
            assert(iv.subrange(j as int, iv.len() as int)[0] == iv[j as int]);
        }
        let ghost before = strings_view(keys@);
        match &items[j].0 {
            Some(k) => {
                keys.push(k.clone());
            },
            None => {
                let key = dedup_key(items[j].1.as_str(), &mut used);
                keys.push(key);
                proof {
                    autos = autos + 1;
                }
            },
        }
        assert(strings_view(keys@) == before + seq![keys@[j as int]@]);
        j = j + 1;
    }
    assert(iv.subrange(iv.len() as int, iv.len() as int) == Seq::<(Option<Seq<char>>, Seq<char>)>::empty());
    keys
}

proof fn lemma_count_auto_front(items: Seq<(Option<Seq<char>>, Seq<char>)>)
    requires
        items.len() > 0,
    ensures
        count_auto(items) == (if items[0].0 is None { 1nat } else { 0nat }) + count_auto(
            items.drop_first(),
        ),
    decreases items.len(),
{
    if items.len() > 1 {
        lemma_count_auto_front(items.drop_last());
        assert(items.drop_last().drop_first() == items.drop_first().drop_last());
        assert(items.drop_first().last() == items.last());
        assert(items.drop_last()[0] == items[0]);
        let df = items.drop_first();
        assert(count_auto(df) == (if df.last().0 is None { 1nat } else { 0nat }) + count_auto(
            df.drop_last(),
        ));
    } else {
        assert(items.drop_first().len() == 0);
        assert(items.last() == items[0]);
        assert(count_auto(items.drop_last()) == 0);
        assert(count_auto(items.drop_first()) == 0);
    }
}

} // verus!

verus! {

/// De-duplication always finds a key: whatever keys are used, some suffix
/// number gives a free key, and so a least one does (the key [`dedup_spec`]
/// picks). There are finitely many used keys and the suffixes are all different.
pub proof fn lemma_least_free_exists(base: Seq<char>, used: Seq<Seq<char>>)
    ensures
        exists|n: nat| is_least_free(base, used, n),
{
    let bound = (used.len() + 2) as nat;
    if forall|k: nat| 1 <= k < bound ==> used.contains(#[trigger] (base + letters(k))) {
        lemma_candidates_bound(base, used, bound);
        assert(false);
    }
    let n = lemma_find_least(base, used, 1, bound);
}

proof fn lemma_find_least(base: Seq<char>, used: Seq<Seq<char>>, k: nat, bound: nat) -> (n: nat)
    requires
        1 <= k <= bound,
        forall|m: nat| 1 <= m < k ==> used.contains(#[trigger] (base + letters(m))),
        !(forall|m: nat| 1 <= m < bound ==> used.contains(#[trigger] (base + letters(m)))),
    ensures
        is_least_free(base, used, n),
    decreases bound - k,
{
    if !used.contains(base + letters(k)) {
        k
    } else {
        if k + 1 > bound {
            assert forall|m: nat| 1 <= m < bound implies used.contains(
                #[trigger] (base + letters(m)),
            ) by {
                if m == k {
                }
            }
        }
        lemma_find_least(base, used, k + 1, bound)
    }
}

/// The key de-duplication picks is never one already used.
pub proof fn lemma_dedup_fresh(base: Seq<char>, used: Seq<Seq<char>>)
    ensures
        !used.contains(dedup_spec(base, used)),
{
    lemma_least_free_exists(base, used);
}

proof fn lemma_assign_from_unique(items: Seq<(Option<Seq<char>>, Seq<char>)>, used: Seq<Seq<char>>)
    requires
        forall|k: Seq<char>| pinned_keys(items).contains(k) ==> used.contains(k),
    ensures
        assign_from(items, used).len() == items.len(),
        forall|i: int|
            0 <= i < items.len() && items[i].0 is None ==> !used.contains(
                #[trigger] assign_from(items, used)[i],
            ),
        forall|i: int, j: int|
            0 <= i < items.len() && 0 <= j < items.len() && i != j && items[i].0 is None
                ==> #[trigger] assign_from(items, used)[i] != #[trigger] assign_from(items, used)[j],
    decreases items.len(),
{
    if items.len() > 0 {
        let rest = items.drop_first();
        let r = assign_from(items, used);
        lemma_pinned_front(items);
        match items[0].0 {
            Some(k) => {
                assert(pinned_keys(items)[0] == k);
                assert(pinned_keys(items).contains(k));
                assert(r == seq![k] + assign_from(rest, used));
                assert forall|k2: Seq<char>| pinned_keys(rest).contains(k2) implies used.contains(
                    k2,
                ) by {
                    let t = choose|t: int| 0 <= t < pinned_keys(rest).len() && pinned_keys(rest)[t]
                        == k2;
                    assert(pinned_keys(items)[t + 1] == k2);
                }
                lemma_assign_from_unique(rest, used);
                assert forall|i: int|
                    0 <= i < items.len() && items[i].0 is None implies !used.contains(
                        #[trigger] r[i],
                    ) by {
                    assert(r[i] == assign_from(rest, used)[i - 1]);
                    assert(rest[i - 1] == items[i]);
                }
                assert forall|i: int, j: int|
                    0 <= i < items.len() && 0 <= j < items.len() && i != j && items[i].0 is None
                        implies #[trigger] r[i] != #[trigger] r[j] by {
                    assert(r[i] == assign_from(rest, used)[i - 1]);
                    assert(rest[i - 1] == items[i]);
                    if j > 0 {
                        assert(r[j] == assign_from(rest, used)[j - 1]);
                    }
                }
            },
            None => {
                let x = dedup_spec(items[0].1, used);
                lemma_dedup_fresh(items[0].1, used);
                let used2 = used.push(x);
                assert(r == seq![x] + assign_from(rest, used2));
                assert forall|k: Seq<char>| pinned_keys(rest).contains(k) implies used2.contains(
                    k,
                ) by {
                    assert(used.contains(k));
                    let t = choose|t: int| 0 <= t < used.len() && used[t] == k;
                    assert(used2[t] == k);
                }
                lemma_assign_from_unique(rest, used2);
                lemma_assign_pinned_kept(rest, used2);
                assert forall|i: int|
                    0 <= i < items.len() && items[i].0 is None implies !used.contains(
                        #[trigger] r[i],
                    ) by {
                    if i > 0 {
                        assert(r[i] == assign_from(rest, used2)[i - 1]);
                        assert(rest[i - 1] == items[i]);
                        if used.contains(r[i]) {
                            let t = choose|t: int| 0 <= t < used.len() && used[t] == r[i];
                            assert(used2[t] == r[i]);
                        }
                    }
                }
                assert forall|i: int, j: int|
                    0 <= i < items.len() && 0 <= j < items.len() && i != j && items[i].0 is None
                        implies #[trigger] r[i] != #[trigger] r[j] by {
                    if i > 0 {
                        assert(r[i] == assign_from(rest, used2)[i - 1]);
                        assert(rest[i - 1] == items[i]);
                        assert(used2[used.len() as int] == x);
                    }
                    if j > 0 {
                        assert(r[j] == assign_from(rest, used2)[j - 1]);
                        assert(rest[j - 1] == items[j]);
                        if i == 0 {
                            assert(used2[used.len() as int] == x);
                            if rest[j - 1].0 is Some {
                                let k = rest[j - 1].0->0;
                                lemma_pinned_contains(rest, j - 1);
                                assert(r[j] == k);
                            }
                        }
                    }
                }
            },
        }
    }
}

proof fn lemma_pinned_front(items: Seq<(Option<Seq<char>>, Seq<char>)>)
    requires
        items.len() > 0,
    ensures
        items[0].0 is Some ==> pinned_keys(items) == seq![items[0].0->0] + pinned_keys(
            items.drop_first(),
        ),
        items[0].0 is None ==> pinned_keys(items) == pinned_keys(items.drop_first()),
    decreases items.len(),
{
    let df = items.drop_first();
    let dl = items.drop_last();
    if items.len() == 1 {
        assert(df.len() == 0);
        assert(dl.len() == 0);
        assert(items.last() == items[0]);
        assert(pinned_keys(df) == Seq::<Seq<char>>::empty());
        assert(pinned_keys(dl) == Seq::<Seq<char>>::empty());
        match items[0].0 {
            Some(k) => {
                assert(pinned_keys(items) == pinned_keys(dl) + seq![k]);
                assert(pinned_keys(items) == seq![k]);
                assert(seq![k] + Seq::<Seq<char>>::empty() == seq![k]);
            },
            None => {
                assert(pinned_keys(items) == pinned_keys(dl));
            },
        }
    } else {
        lemma_pinned_front(dl);
        assert(dl.drop_first() == df.drop_last());
        assert(df.last() == items.last());
        assert(dl[0] == items[0]);
        match items.last().0 {
            Some(z) => {
                assert(pinned_keys(items) == pinned_keys(dl) + seq![z]);
                assert(pinned_keys(df) == pinned_keys(df.drop_last()) + seq![z]);
            },
            None => {
                assert(pinned_keys(items) == pinned_keys(dl));
                assert(pinned_keys(df) == pinned_keys(df.drop_last()));
            },
        }
        match items[0].0 {
            Some(k) => {
                assert(pinned_keys(items) =~= seq![k] + pinned_keys(df));
            },
            None => {},
        }
    }
}

proof fn lemma_pinned_contains(items: Seq<(Option<Seq<char>>, Seq<char>)>, i: int)
    requires
        0 <= i < items.len(),
        items[i].0 is Some,
    ensures
        pinned_keys(items).contains(items[i].0->0),
    decreases items.len(),
{
    if i == items.len() - 1 {
        assert(pinned_keys(items) == pinned_keys(items.drop_last()) + seq![items[i].0->0]);
        assert(pinned_keys(items)[pinned_keys(items).len() - 1] == items[i].0->0);
    } else {
        lemma_pinned_contains(items.drop_last(), i);
        let p = pinned_keys(items.drop_last());
        let k = items[i].0->0;
        let t = choose|t: int| 0 <= t < p.len() && p[t] == k;
        assert(items.drop_last()[i] == items[i]);
        match items.last().0 {
            Some(z) => {
                assert(pinned_keys(items) == p + seq![z]);
                assert(pinned_keys(items)[t] == k);
            },
            None => {
                assert(pinned_keys(items) == p);
            },
        }
    }
}

/// Export keys are unique where it matters: a generated key differs from every
/// pinned key and from every other key in the file.
pub proof fn lemma_export_keys_unique(items: Seq<(Option<Seq<char>>, Seq<char>)>)
    ensures
        assign_keys_spec(items).len() == items.len(),
        forall|i: int|
            0 <= i < items.len() && items[i].0 is Some ==> #[trigger] assign_keys_spec(items)[i]
                == items[i].0->0,
        forall|i: int, j: int|
            0 <= i < items.len() && 0 <= j < items.len() && i != j && items[i].0 is None
                ==> #[trigger] assign_keys_spec(items)[i] != #[trigger] assign_keys_spec(items)[j],
{
    lemma_assign_from_unique(items, pinned_keys(items));
    lemma_assign_pinned_kept(items, pinned_keys(items));
}

proof fn lemma_assign_pinned_kept(items: Seq<(Option<Seq<char>>, Seq<char>)>, used: Seq<Seq<char>>)
    ensures
        assign_from(items, used).len() == items.len(),
        forall|i: int|
            0 <= i < items.len() && items[i].0 is Some ==> #[trigger] assign_from(items, used)[i]
                == items[i].0->0,
    decreases items.len(),
{
    if items.len() > 0 {
        let rest = items.drop_first();
        let used2 = match items[0].0 {
            Some(k) => used,
            None => used.push(dedup_spec(items[0].1, used)),
        };
        lemma_assign_pinned_kept(rest, used2);
        let x = match items[0].0 {
            Some(k) => k,
            None => dedup_spec(items[0].1, used),
        };
        assert(assign_from(items, used) == seq![x] + assign_from(rest, used2));
        assert forall|i: int|
            0 <= i < items.len() && items[i].0 is Some implies #[trigger] assign_from(items, used)[i]
                == items[i].0->0 by {
            if i > 0 {
                assert(rest[i - 1] == items[i]);
                assert(assign_from(items, used)[i] == assign_from(rest, used2)[i - 1]);
            }
        }
    }
}

} // verus!

verus! {

// ── generated citation keys ────────────────────────────────────────────────

/// A char that may stay in a generated key: ASCII letter, digit or `_`.
pub open spec fn is_key_char(c: char) -> bool {
    is_ascii_alnum_spec(c) || c == '_'
}

/// The chars of `s` that may stay in a generated key, in order.
pub open spec fn keep_key_chars(s: Seq<char>) -> Seq<char>
    decreases s.len(),
{
    if s.len() == 0 {
        seq![]
    } else if is_key_char(s.last()) {
        keep_key_chars(s.drop_last()).push(s.last())
    } else {
        keep_key_chars(s.drop_last())
    }
}

/// The name part of a generated key: the first author's last word, or, without
/// an author, the title's first word (`unknown` for an empty title), lower-cased.
pub open spec fn key_name_part(first_author: Option<Seq<char>>, title: Seq<char>) -> Seq<char> {
    match first_author {
        Some(name) if trim_spec(name).len() > 0 => spec_to_lowercase(last_word(name)),
        _ => if trim_spec(title).len() > 0 {
            spec_to_lowercase(first_word(title))
        } else {
            spec_to_lowercase("unknown"@)
        },
    }
}

/// The year part of a generated key: the year, or `nd` without one.
pub open spec fn key_year_part(year: Option<i64>) -> Seq<char> {
    match year {
        Some(y) => int_text(y as int),
        None => "nd"@,
    }
}

/// A generated key before de-duplication: name part + year part, keeping only
/// ASCII letters, digits and `_`.
pub open spec fn base_key_spec(first_author: Option<Seq<char>>, title: Seq<char>, year: Option<i64>) -> Seq<
    char,
> {
    keep_key_chars(key_name_part(first_author, title) + key_year_part(year))
}

fn keep_key_chars_exec(s: &Vec<char>) -> (r: Vec<char>)
    ensures
        r@ == keep_key_chars(s@),
{
    let mut r: Vec<char> = Vec::new();
    let mut i: usize = 0;
    while i < s.len()
        invariant
            i <= s.len(),
            r@ == keep_key_chars(s@.take(i as int)),
        decreases s.len() - i,
    {
        proof {
            assert(s@.take(i + 1).drop_last() == s@.take(i as int));
            assert(s@.take(i + 1).last() == s@[i as int]);
        }
        let c = s[i];
        if is_ascii_alnum(c) || c == '_' {
            r.push(c);
        }
        i = i + 1;
    }
    assert(s@.take(s.len() as int) == s@);
    r
}

/// The automatic citation key base (no suffix): first author's family-name-like
/// last word (or the title's first word) followed by the year (or `nd`).
pub fn make_base_key(first_author: Option<&str>, title: &str, year: Option<i64>) -> (k: String)
    ensures
        k@ == base_key_spec(
            match first_author {
                Some(a) => Some(a@),
                None => None,
            },
            title@,
            year,
        ),
{
    let mut use_author = false;
    let mut author_chars: Vec<char> = Vec::new();
    match first_author {
        Some(name) => {
            author_chars = to_chars(name);
            let t = trim_chars(&author_chars);
            use_author = t.len() > 0;
        },
        None => {},
    }
    let name_part = if use_author {
        let w = last_word_chars(&author_chars);
        lowercase_chars(&w)
    } else {
        let tc = to_chars(title);
        let tt = trim_chars(&tc);
        if tt.len() > 0 {
            let w = first_word_chars(&tc);
            lowercase_chars(&w)
        } else {
            let u = to_chars("unknown");
            lowercase_chars(&u)
        }
    };
    let year_part = match year {
        Some(y) => i64_text(y),
        None => to_chars("nd"),
    };
    let mut all: Vec<char> = Vec::new();
    push_all(&mut all, &name_part);
    push_all(&mut all, &year_part);
    let kept = keep_key_chars_exec(&all);
    from_chars(&kept)
}

/// The automatic key base of a stored entry (its first author, title and year).
pub fn make_citation_key(entry: &EntryDetail) -> (k: String)
    ensures
        k@ == base_key_spec(
            if entry.author_names@.len() > 0 {
                Some(entry.author_names@[0]@)
            } else {
                None
            },
            entry.title@,
            entry.year,
        ),
{
    if entry.author_names.len() > 0 {
        make_base_key(Some(entry.author_names[0].as_str()), entry.title.as_str(), entry.year)
    } else {
        make_base_key(None, entry.title.as_str(), entry.year)
    }
}

/// Export keys of entries in the given order: pinned keys kept, generated ones
/// de-duplicated within the file (the same rule `assign_keys_from` applies).
pub fn assign_keys(entries: &Vec<EntryDetail>) -> (keys: Vec<String>)
    requires
        entries.len() < usize::MAX,
    ensures
        strings_view(keys@) == assign_keys_spec(
            entries@.map_values(
                |e: EntryDetail|
                    (
                        opt_view(e.citation_key),
                        base_key_spec(
                            if e.author_names@.len() > 0 {
                                Some(e.author_names@[0]@)
                            } else {
                                None
                            },
                            e.title@,
                            e.year,
                        ),
                    ),
            ),
        ),
{
    let mut items: Vec<(Option<String>, String)> = Vec::new();
    let mut i: usize = 0;
    while i < entries.len()
        invariant
            i <= entries.len(),
            items_view(items@) == entries@.take(i as int).map_values(
                |e: EntryDetail|
                    (
                        opt_view(e.citation_key),
                        base_key_spec(
                            if e.author_names@.len() > 0 {
                                Some(e.author_names@[0]@)
                            } else {
                                None
                            },
                            e.title@,
                            e.year,
                        ),
                    ),
            ),
        decreases entries.len() - i,
    {
        let e = &entries[i];
        let pinned = match &e.citation_key {
            Some(k) => Some(k.clone()),
            None => None,
        };
        let base = make_citation_key(e);
        let ghost before = items_view(items@);
        items.push((pinned, base));
        proof {
            assert(entries@.take(i + 1) == entries@.take(i as int).push(entries@[i as int]));
            assert(items_view(items@) == before.push((opt_view(pinned), base@)));
        }
        i = i + 1;
    }
    assert(entries@.take(entries.len() as int) == entries@);
    assign_keys_from(&items)
}

} // verus!

verus! {

// ── export text ────────────────────────────────────────────────────────────

/// BibTeX (biblatex) entry type for an internal entry type; types without a
/// standard counterpart become `misc`.
pub open spec fn bib_type_of(t: Seq<char>) -> Seq<char> {
    if t == "article"@ || t == "magazineArticle"@ || t == "newspaperArticle"@ {
        "article"@
    } else if t == "book"@ {
        "book"@
    } else if t == "bookSection"@ || t == "encyclopediaArticle"@ || t == "dictionaryEntry"@ {
        "incollection"@
    } else if t == "inproceedings"@ {
        "inproceedings"@
    } else if t == "thesis"@ {
        "phdthesis"@
    } else if t == "report"@ {
        "report"@
    } else if t == "manuscript"@ {
        "unpublished"@
    } else if t == "patent"@ {
        "patent"@
    } else if t == "dataset"@ {
        "dataset"@
    } else if t == "computerProgram"@ {
        "software"@
    } else if t == "webpage"@ {
        "online"@
    } else {
        "misc"@
    }
}

/// One field line: `  <label padded to 10> = {<value>}`.
pub open spec fn field_line(label: Seq<char>, v: Seq<char>) -> Seq<char> {
    "  "@ + pad_right(label, 10) + " = {"@ + v + "}"@
}

/// The line of an optional field (none when absent).
pub open spec fn opt_line(label: Seq<char>, v: Option<Seq<char>>) -> Seq<Seq<char>> {
    match v {
        Some(x) => seq![field_line(label, x)],
        None => seq![],
    }
}

/// Lines of the type-specific fields, in the given order.
pub open spec fn extra_lines(extra: Seq<(Seq<char>, Seq<char>)>) -> Seq<Seq<char>>
    decreases extra.len(),
{
    if extra.len() == 0 {
        seq![]
    } else {
        extra_lines(extra.drop_last()).push(field_line(extra.last().0, extra.last().1))
    }
}

/// The field lines of an exported entry, given its type-specific fields in the
/// order they are written.
pub open spec fn bib_fields(e: EntryDetail, extra: Seq<(Seq<char>, Seq<char>)>) -> Seq<Seq<char>> {
    seq![field_line("title"@, e.title@)] + (if e.author_names@.len() > 0 {
        seq![field_line("author"@, join_spec(strings_view(e.author_names@), " and "@))]
    } else {
        seq![]
    }) + opt_line(
        "year"@,
        match e.year {
            Some(y) => Some(int_text(y as int)),
            None => None,
        },
    ) + opt_line("doi"@, opt_view(e.doi)) + (match e.arxiv_id {
        Some(a) => seq![field_line("eprint"@, a@), field_line("eprinttype"@, "arXiv"@)],
        None => seq![],
    }) + opt_line("isbn"@, opt_view(e.isbn)) + opt_line("url"@, opt_view(e.url)) + opt_line(
        "abstract"@,
        opt_view(e.abstract_),
    ) + opt_line("note"@, opt_view(e.notes)) + extra_lines(extra)
}

/// The BibTeX text of one entry under `key`, with its type-specific fields in
/// the given order.
pub open spec fn bib_text(e: EntryDetail, key: Seq<char>, extra: Seq<(Seq<char>, Seq<char>)>) -> Seq<
    char,
> {
    "@"@ + bib_type_of(e.entry_type@) + "{"@ + key + ",\n"@ + join_spec(bib_fields(e, extra), ",\n"@)
        + "\n}"@
}

fn field_line_exec(label: &str, v: &Vec<char>) -> (r: Vec<char>)
    ensures
        r@ == field_line(label@, v@),
{
    let l = to_chars(label);
    field_line_of(&l, v)
}

fn field_line_of(l: &Vec<char>, v: &Vec<char>) -> (r: Vec<char>)
    ensures
        r@ == field_line(l@, v@),
{
    let mut r = to_chars("  ");
    let p = pad_right_chars(l, 10);
    push_all(&mut r, &p);
    let eq = to_chars(" = {");
    push_all(&mut r, &eq);
    push_all(&mut r, v);
    let close = to_chars("}");
    push_all(&mut r, &close);
    r
}

fn push_opt_line(fields: &mut Vec<Vec<char>>, label: &str, v: &Option<String>)
    ensures
        final(fields)@.map_values(|p: Vec<char>| p@) == old(fields)@.map_values(|p: Vec<char>| p@)
            + opt_line(label@, opt_view(*v)),
{
    let ghost before = fields@.map_values(|p: Vec<char>| p@);
    match v {
        Some(x) => {
            let xc = to_chars(x.as_str());
            let line = field_line_exec(label, &xc);
            fields.push(line);
            assert(fields@.map_values(|p: Vec<char>| p@) == before.push(line@));
        },
        None => {
            assert(fields@.map_values(|p: Vec<char>| p@) == before);
        },
    }
}

/// The BibTeX text of one entry under `key`, its type-specific fields sorted
/// by key (stably).
pub open spec fn entry_bibtex_spec(e: EntryDetail, key: Seq<char>) -> Seq<char> {
    bib_text(e, key, sort_by_key_spec(pairs_view(e.extra_fields@)))
}

/// Renders one entry as BibTeX under the citation key `key`: the fixed fields
/// first, then the type-specific fields in ascending key order.
pub fn entry_to_bibtex(entry: &EntryDetail, key: &str) -> (r: String)
    ensures
        r@ == entry_bibtex_spec(*entry, key@),
{
    let mut fields: Vec<Vec<char>> = Vec::new();
    let title = to_chars(entry.title.as_str());
    fields.push(field_line_exec("title", &title));
    let ghost f0 = fields@.map_values(|p: Vec<char>| p@);
    assert(f0 == seq![field_line("title"@, entry.title@)]);
    if entry.author_names.len() > 0 {
        let mut names: Vec<Vec<char>> = Vec::new();
        let mut i: usize = 0;
        while i < entry.author_names.len()
            invariant
                i <= entry.author_names.len(),
                names@.map_values(|p: Vec<char>| p@) == strings_view(entry.author_names@.take(i as int)),
            decreases entry.author_names.len() - i,
        {
            let ghost before = names@.map_values(|p: Vec<char>| p@);
            names.push(to_chars(entry.author_names[i].as_str()));
            proof {
                assert(entry.author_names@.take(i + 1) == entry.author_names@.take(i as int).push(
                    entry.author_names@[i as int],
                ));
                assert(names@.map_values(|p: Vec<char>| p@) == before.push(entry.author_names@[i as int]@));
            }
            i = i + 1;
        }
        assert(entry.author_names@.take(entry.author_names.len() as int) == entry.author_names@);
        let sep = to_chars(" and ");
        let joined = join_chars(&names, &sep);
        let ghost before = fields@.map_values(|p: Vec<char>| p@);
        let line = field_line_exec("author", &joined);
        fields.push(line);
        assert(fields@.map_values(|p: Vec<char>| p@) == before.push(line@));
    }
    let year_text: Option<String> = match entry.year {
        Some(y) => {
            let t = i64_text(y);
            Some(from_chars(&t))
        },
        None => None,
    };
    push_opt_line(&mut fields, "year", &year_text);
    push_opt_line(&mut fields, "doi", &entry.doi);
    match &entry.arxiv_id {
        Some(a) => {
            let ac = to_chars(a.as_str());
            let ghost before = fields@.map_values(|p: Vec<char>| p@);
            let l1 = field_line_exec("eprint", &ac);
            fields.push(l1);
            let arx = to_chars("arXiv");
            let l2 = field_line_exec("eprinttype", &arx);
            fields.push(l2);
            assert(fields@.map_values(|p: Vec<char>| p@) == before + seq![l1@, l2@]);
        },
        None => {},
    }
    push_opt_line(&mut fields, "isbn", &entry.isbn);
    push_opt_line(&mut fields, "url", &entry.url);
    push_opt_line(&mut fields, "abstract", &entry.abstract_);
    push_opt_line(&mut fields, "note", &entry.notes);
    let ghost fixed = fields@.map_values(|p: Vec<char>| p@);
    let sorted = sort_pairs_by_key(&entry.extra_fields);
    let ghost sv = pairs_view(sorted@);
    let mut j: usize = 0;
    while j < sorted.len()
        invariant
            j <= sorted.len(),
            sv == pairs_view(sorted@),
            fields@.map_values(|p: Vec<char>| p@) == fixed + extra_lines(sv.take(j as int)),
        decreases sorted.len() - j,
    {
        let k = to_chars(sorted[j].0.as_str());
        let v = to_chars(sorted[j].1.as_str());
        let line = field_line_of(&k, &v);
        let ghost before = fields@.map_values(|p: Vec<char>| p@);
        fields.push(line);
        proof {
            assert(sv.take(j + 1).drop_last() == sv.take(j as int));
            assert(sv.take(j + 1).last() == sv[j as int]);
            assert(fields@.map_values(|p: Vec<char>| p@) == before.push(line@));
        }
        j = j + 1;
    }
    assert(sv.take(sorted.len() as int) == sv);
    let ghost fv = fields@.map_values(|p: Vec<char>| p@);
    assert(fv == bib_fields(*entry, sv));
    let ty = to_chars(entry.entry_type.as_str());
    let bt = bib_type_chars(&ty);
    let mut out = to_chars("@");
    push_all(&mut out, &bt);
    let open = to_chars("{");
    push_all(&mut out, &open);
    let kc = to_chars(key);
    push_all(&mut out, &kc);
    let comma = to_chars(",\n");
    push_all(&mut out, &comma);
    let body = join_chars(&fields, &comma);
    push_all(&mut out, &body);
    let end = to_chars("\n}");
    push_all(&mut out, &end);
    from_chars(&out)
}

fn bib_type_chars(t: &Vec<char>) -> (r: Vec<char>)
    ensures
        r@ == bib_type_of(t@),
{
    let out: &str = if is_lit(t, "article") || is_lit(t, "magazineArticle") || is_lit(
        t,
        "newspaperArticle",
    ) {
        "article"
    } else if is_lit(t, "book") {
        "book"
    } else if is_lit(t, "bookSection") || is_lit(t, "encyclopediaArticle") || is_lit(
        t,
        "dictionaryEntry",
    ) {
        "incollection"
    } else if is_lit(t, "inproceedings") {
        "inproceedings"
    } else if is_lit(t, "thesis") {
        "phdthesis"
    } else if is_lit(t, "report") {
        "report"
    } else if is_lit(t, "manuscript") {
        "unpublished"
    } else if is_lit(t, "patent") {
        "patent"
    } else if is_lit(t, "dataset") {
        "dataset"
    } else if is_lit(t, "computerProgram") {
        "software"
    } else if is_lit(t, "webpage") {
        "online"
    } else {
        "misc"
    };
    to_chars(out)
}

} // verus!

verus! {

// ── reading a .bib file ────────────────────────────────────────────────────

/// One `@type{key, tag = {value}, ...}` entry of a parsed BibTeX file; tag names
/// are lower-case and each occurs once.
#[derive(Debug)]
pub struct BibRecord {
    pub entry_type: String,
    pub citation_key: String,
    pub tags: Vec<(String, String)>,
}

/// The value of the first tag named `k`.
pub open spec fn tag_get(tags: Seq<(Seq<char>, Seq<char>)>, k: Seq<char>) -> Option<Seq<char>>
    decreases tags.len(),
{
    if tags.len() == 0 {
        None
    } else if tags[0].0 == k {
        Some(tags[0].1)
    } else {
        tag_get(tags.drop_first(), k)
    }
}

/// Each tag name occurs once.
pub open spec fn tags_distinct(tags: Seq<(Seq<char>, Seq<char>)>) -> bool {
    forall|i: int, j: int| 0 <= i < j < tags.len() ==> tags[i].0 != tags[j].0
}

/// The tags as a map from name to value.
pub open spec fn tags_map(tags: Seq<(Seq<char>, Seq<char>)>) -> Map<Seq<char>, Seq<char>> {
    Map::new(|k: Seq<char>| tag_get(tags, k) is Some, |k: Seq<char>| tag_get(tags, k)->0)
}

/// What `nom_bibtex::Bibtex::parse` yields for a file: `None` when it rejects the
/// text, else for each bibliography entry, in file order, its entry type, its
/// citation key and its tags (names lower-cased, string variables expanded).
pub uninterp spec fn spec_bibtex_parse(content: Seq<char>) -> Option<
    Seq<(Seq<char>, Seq<char>, Map<Seq<char>, Seq<char>>)>,
>;

// ── what the parser reads safely ──────────────────────────────────────────

/// Scanning a braced value from `i` with `q` inner braces open: the scan runs
/// to the end of the text without meeting the brace that closes the value.
pub open spec fn braced_runs_out(t: Seq<char>, i: int, q: int) -> bool
    decreases t.len() - i,
{
    if i >= t.len() {
        true
    } else if t[i] == '{' {
        braced_runs_out(t, i + 1, q + 1)
    } else if t[i] == '}' {
        if q == 0 {
            false
        } else {
            braced_runs_out(t, i + 1, q - 1)
        }
    } else {
        braced_runs_out(t, i + 1, q)
    }
}

/// Scanning a quoted value from `i` with `q` braces open: the scan runs to the
/// end of the text without meeting the closing `"` (at brace depth 0) or a `}`
/// that closes more braces than it opened (where the scan gives up).
pub open spec fn quoted_runs_out(t: Seq<char>, i: int, q: int) -> bool
    decreases t.len() - i,
{
    if i >= t.len() {
        true
    } else if t[i] == '{' {
        quoted_runs_out(t, i + 1, q + 1)
    } else if t[i] == '}' {
        if q == 0 {
            false
        } else {
            quoted_runs_out(t, i + 1, q - 1)
        }
    } else if t[i] == '"' && q == 0 {
        false
    } else {
        quoted_runs_out(t, i + 1, q)
    }
}

/// A value scan that starts at the `{` or `"` at `s` runs to the end of the text.
pub open spec fn value_runs_out_from(t: Seq<char>, s: int) -> bool {
    (t[s] == '{' && braced_runs_out(t, s + 1, 0)) || (t[s] == '"' && quoted_runs_out(t, s + 1, 0))
}

/// Some value scan runs to the end of the text where the parser then slices the
/// text out of range (the opening `{` or `"` is the last char) or inside a char
/// (the last char is not ASCII).
pub open spec fn value_scan_breaks(t: Seq<char>) -> bool {
    exists|s: int|
        0 <= s < t.len() && #[trigger] value_runs_out_from(t, s) && (s == t.len() - 1 || (t.last() as u32) >= 128)
}

/// One piece of a string variable's value: literal text, or the name of a
/// variable whose value stands there.
#[derive(Debug)]
pub enum BibChunk {
    Text(String),
    Name(String),
}

/// A string variable (`@string{name = value}`) as the parser reads it.
#[derive(Debug)]
pub struct BibVariable {
    pub name: String,
    pub value: Vec<BibChunk>,
}

/// A chunk as a value: whether it names a variable, and its text.
pub open spec fn chunk_view(c: BibChunk) -> (bool, Seq<char>) {
    match c {
        BibChunk::Text(s) => (false, s@),
        BibChunk::Name(s) => (true, s@),
    }
}

/// A variable as a value: its name and its chunks.
pub open spec fn variable_view(v: BibVariable) -> (Seq<char>, Seq<(bool, Seq<char>)>) {
    (v.name@, v.value@.map_values(|c: BibChunk| chunk_view(c)))
}

/// An entry of the raw parse as a value: the variable it defines, if any.
pub open spec fn raw_entry_view(e: Option<BibVariable>) -> Option<(Seq<char>, Seq<(bool, Seq<char>)>)> {
    match e {
        Some(v) => Some(variable_view(v)),
        None => None,
    }
}

/// What `nom_bibtex::Bibtex::raw_parse` yields for a text: `None` when it
/// rejects the text, else for each entry, in file order, the string variable it
/// defines (`None` for every other kind of entry).
pub uninterp spec fn spec_bibtex_raw_variables(content: Seq<char>) -> Option<
    Seq<Option<(Seq<char>, Seq<(bool, Seq<char>)>)>>,
>;

/// `nom_bibtex::Bibtex::raw_parse`, each entry copied as the string variable it
/// defines, if it is one. It is called only where no value scan breaks, on which
/// the parser returns.
#[verifier::external_body]
fn bibtex_raw_variables(content: &str) -> (r: Option<Vec<Option<BibVariable>>>)
    requires
        !value_scan_breaks(content@),
    ensures
        match r {
            Some(v) => spec_bibtex_raw_variables(content@) == Some(v@.map_values(|e: Option<BibVariable>| raw_entry_view(e))),
            None => spec_bibtex_raw_variables(content@) is None,
        },
{
    match nom_bibtex::Bibtex::raw_parse(content) {
        Ok(es) => Some(es.into_iter().map(|e| match e {
            nom_bibtex::Entry::Variable(kv) => Some(BibVariable {
                name: kv.key,
                value: kv.value.into_iter().map(|c| match c {
                    StringValueType::Str(s) => BibChunk::Text(s),
                    StringValueType::Abbreviation(s) => BibChunk::Name(s),
                }).collect(),
            }),
            nom_bibtex::Entry::Preamble(_) | nom_bibtex::Entry::Comment(_) => None,
            nom_bibtex::Entry::Bibliography(..) => None,
        }).collect()),
        Err(_) => None,
    }
}

/// The variables among the raw entries, in order.
pub open spec fn defined_variables(es: Seq<Option<(Seq<char>, Seq<(bool, Seq<char>)>)>>) -> Seq<
    (Seq<char>, Seq<(bool, Seq<char>)>),
>
    decreases es.len(),
{
    if es.len() == 0 {
        Seq::empty()
    } else {
        match es.last() {
            Some(v) => defined_variables(es.drop_last()).push(v),
            None => defined_variables(es.drop_last()),
        }
    }
}

/// The first variable named `name` (the one the parser expands a name to).
pub open spec fn first_variable(vars: Seq<(Seq<char>, Seq<(bool, Seq<char>)>)>, name: Seq<char>) -> Option<int>
    decreases vars.len(),
{
    if vars.len() == 0 {
        None
    } else {
        match first_variable(vars.drop_last(), name) {
            Some(j) => Some(j),
            None => if vars.last().0 == name {
                Some(vars.len() - 1)
            } else {
                None
            },
        }
    }
}

/// Expanding the chunks `cs` follows names to variables at most `f` deep: no
/// chain of names met on the way is longer.
pub open spec fn expands_within(vars: Seq<(Seq<char>, Seq<(bool, Seq<char>)>)>, cs: Seq<(bool, Seq<char>)>, f: nat) -> bool
    decreases f, cs.len(),
{
    if cs.len() == 0 {
        true
    } else {
        let head_ok = if cs[0].0 {
            match first_variable(vars, cs[0].1) {
                Some(j) => if f == 0 {
                    false
                } else {
                    expands_within(vars, vars[j].1, (f - 1) as nat)
                },
                None => true,
            }
        } else {
            true
        };
        head_ok && expands_within(vars, cs.drop_first(), f)
    }
}

/// No variable reaches itself through the names in the values: from every
/// variable, every chain of names is shorter than the number of variables.
pub open spec fn variables_acyclic(vars: Seq<(Seq<char>, Seq<(bool, Seq<char>)>)>) -> bool {
    forall|a: int| 0 <= a < vars.len() ==> #[trigger] expands_within(vars, vars[a].1, vars.len())
}

/// A text that `nom_bibtex::Bibtex::parse` reads to an end, `Ok` or `Err`: no
/// value scan slices the text wrongly at its end, and, when the text parses, no
/// string variable is defined through itself, directly or through others (the
/// parser expands such a definition without end; a cycle is refused even where
/// an undefined name earlier in a value would stop the expansion first).
pub open spec fn bibtex_parse_safe(t: Seq<char>) -> bool {
    &&& !value_scan_breaks(t)
    &&& match spec_bibtex_raw_variables(t) {
        Some(es) => variables_acyclic(defined_variables(es)),
        None => true,
    }
}

fn braced_runs_out_exec(v: &Vec<char>, start: usize) -> (r: bool)
    requires
        start <= v.len(),
    ensures
        r == braced_runs_out(v@, start as int, 0),
{
    let mut i = start;
    let mut q: usize = 0;
    while i < v.len()
        invariant
            start <= i <= v.len(),
            q <= i,
            braced_runs_out(v@, start as int, 0) == braced_runs_out(v@, i as int, q as int),
        decreases v.len() - i,
    {
        let c = v[i];
        if c == '{' {
            q = q + 1;
        } else if c == '}' {
            if q == 0 {
                return false;
            }
            q = q - 1;
        }
        i = i + 1;
    }
    true
}

fn quoted_runs_out_exec(v: &Vec<char>, start: usize) -> (r: bool)
    requires
        start <= v.len(),
    ensures
        r == quoted_runs_out(v@, start as int, 0),
{
    let mut i = start;
    let mut q: usize = 0;
    while i < v.len()
        invariant
            start <= i <= v.len(),
            q <= i,
            quoted_runs_out(v@, start as int, 0) == quoted_runs_out(v@, i as int, q as int),
        decreases v.len() - i,
    {
        let c = v[i];
        if c == '{' {
            q = q + 1;
        } else if c == '}' {
            if q == 0 {
                return false;
            }
            q = q - 1;
        } else if c == '"' && q == 0 {
            return false;
        }
        i = i + 1;
    }
    true
}

fn value_scan_breaks_exec(v: &Vec<char>) -> (r: bool)
    ensures
        r == value_scan_breaks(v@),
{
    let n = v.len();
    if n == 0 {
        return false;
    }
    let last = v[n - 1];
    if last == '{' || last == '"' {
        proof {
            assert(braced_runs_out(v@, n as int, 0));
            assert(quoted_runs_out(v@, n as int, 0));
            assert(value_runs_out_from(v@, n - 1));
        }
        return true;
    }
    if (last as u32) < 128 {
        proof {
            assert forall|s: int| 0 <= s < v@.len() && #[trigger] value_runs_out_from(v@, s) implies !(s == v@.len() - 1
                || (v@.last() as u32) >= 128) by {}
        }
        return false;
    }
    let mut s: usize = 0;
    while s < n
        invariant
            n == v.len(),
            s <= n,
            (v@.last() as u32) >= 128,
            forall|k: int| 0 <= k < s ==> !#[trigger] value_runs_out_from(v@, k),
        decreases n - s,
    {
        let c = v[s];
        if c == '{' && braced_runs_out_exec(v, s + 1) {
            assert(value_runs_out_from(v@, s as int));
            return true;
        }
        if c == '"' && quoted_runs_out_exec(v, s + 1) {
            assert(value_runs_out_from(v@, s as int));
            return true;
        }
        s = s + 1;
    }
    false
}

/// The variables among the raw entries, in order.
fn collect_variables(es: Vec<Option<BibVariable>>) -> (r: Vec<BibVariable>)
    ensures
        r@.map_values(|v: BibVariable| variable_view(v)) == defined_variables(
            es@.map_values(|e: Option<BibVariable>| raw_entry_view(e)),
        ),
{
    let ghost ev = es@.map_values(|e: Option<BibVariable>| raw_entry_view(e));
    let mut out: Vec<BibVariable> = Vec::new();
    let mut rest = es;
    let total = rest.len();
    let mut k: usize = 0;
    proof {
        assert(ev.subrange(0, 0) =~= Seq::<Option<(Seq<char>, Seq<(bool, Seq<char>)>)>>::empty());
    }
    while k < total
        invariant
            total == ev.len(),
            k <= total,
            rest.len() == total - k,
            forall|i: int| 0 <= i < rest.len() ==> raw_entry_view(#[trigger] rest@[i]) == ev[k + i],
            out@.map_values(|v: BibVariable| variable_view(v)) == defined_variables(ev.subrange(0, k as int)),
        decreases total - k,
    {
        let e = rest.remove(0);
        proof {
            assert(raw_entry_view(e) == ev[k as int]);
            assert(ev.subrange(0, k + 1).drop_last() =~= ev.subrange(0, k as int));
            assert(ev.subrange(0, k + 1).last() == ev[k as int]);
        }
        match e {
            Some(var) => {
                let ghost before = out@.map_values(|v: BibVariable| variable_view(v));
                let ghost vv = variable_view(var);
                out.push(var);
                assert(out@.map_values(|v: BibVariable| variable_view(v)) =~= before.push(vv));
            },
            None => {},
        }
        k = k + 1;
    }
    proof {
        assert(ev.subrange(0, total as int) =~= ev);
    }
    out
}

/// The views of a list of variables.
pub open spec fn variables_view(v: Seq<BibVariable>) -> Seq<(Seq<char>, Seq<(bool, Seq<char>)>)> {
    v.map_values(|x: BibVariable| variable_view(x))
}

proof fn lemma_first_variable(vars: Seq<(Seq<char>, Seq<(bool, Seq<char>)>)>, name: Seq<char>)
    ensures
        match first_variable(vars, name) {
            Some(j) => 0 <= j < vars.len() && vars[j].0 == name && forall|i: int| 0 <= i < j ==> vars[i].0 != name,
            None => forall|i: int| 0 <= i < vars.len() ==> vars[i].0 != name,
        },
    decreases vars.len(),
{
    if vars.len() > 0 {
        let d = vars.drop_last();
        lemma_first_variable(d, name);
        assert forall|i: int| 0 <= i < d.len() implies d[i] == vars[i] by {}
    }
}

fn first_variable_exec(names: &Vec<Vec<char>>, name: &Vec<char>, Ghost(vv): Ghost<Seq<(Seq<char>, Seq<(bool, Seq<char>)>)>>) -> (r: Option<usize>)
    requires
        names.len() == vv.len(),
        forall|i: int| 0 <= i < names.len() ==> (#[trigger] names@[i])@ == vv[i].0,
    ensures
        match r {
            Some(j) => first_variable(vv, name@) == Some(j as int) && j < names.len(),
            None => first_variable(vv, name@) is None,
        },
{
    proof {
        lemma_first_variable(vv, name@);
    }
    let mut i: usize = 0;
    while i < names.len()
        invariant
            i <= names.len(),
            names.len() == vv.len(),
            forall|k: int| 0 <= k < names.len() ==> (#[trigger] names@[k])@ == vv[k].0,
            forall|k: int| 0 <= k < i ==> vv[k].0 != name@,
        decreases names.len() - i,
    {
        if chars_eq(&names[i], name) {
            proof {
                lemma_first_variable(vv, name@);
                match first_variable(vv, name@) {
                    Some(j) => {
                        if j < i {
                            assert(vv[j].0 != name@);
                        }
                        if j > i {
                            assert(vv[i as int].0 == name@);
                        }
                    },
                    None => {
                        assert(vv[i as int].0 == name@);
                    },
                }
            }
            return Some(i);
        }
        i = i + 1;
    }
    proof {
        lemma_first_variable(vv, name@);
        match first_variable(vv, name@) {
            Some(j) => {
                assert(vv[j].0 != name@);
            },
            None => {},
        }
    }
    None
}

fn chunks_within(
    cs: &Vec<BibChunk>,
    names: &Vec<Vec<char>>,
    f: usize,
    prev: &Vec<bool>,
    Ghost(vv): Ghost<Seq<(Seq<char>, Seq<(bool, Seq<char>)>)>>,
) -> (r: bool)
    requires
        names.len() == vv.len(),
        forall|i: int| 0 <= i < names.len() ==> (#[trigger] names@[i])@ == vv[i].0,
        prev.len() == vv.len(),
        f > 0 ==> forall|j: int| 0 <= j < vv.len() ==> #[trigger] prev@[j] == expands_within(vv, vv[j].1, (f - 1) as nat),
    ensures
        r == expands_within(vv, cs@.map_values(|c: BibChunk| chunk_view(c)), f as nat),
{
    let ghost cv = cs@.map_values(|c: BibChunk| chunk_view(c));
    let mut k: usize = 0;
    assert(cv.skip(0) =~= cv);
    while k < cs.len()
        invariant
            k <= cs.len(),
            cv == cs@.map_values(|c: BibChunk| chunk_view(c)),
            names.len() == vv.len(),
            forall|i: int| 0 <= i < names.len() ==> (#[trigger] names@[i])@ == vv[i].0,
            prev.len() == vv.len(),
            f > 0 ==> forall|j: int| 0 <= j < vv.len() ==> #[trigger] prev@[j] == expands_within(vv, vv[j].1, (f - 1) as nat),
            expands_within(vv, cv, f as nat) == expands_within(vv, cv.skip(k as int), f as nat),
        decreases cs.len() - k,
    {
        let ghost sk = cv.skip(k as int);
        assert(sk[0] == cv[k as int]);
        assert(sk.drop_first() =~= cv.skip(k + 1));
        assert(cv[k as int] == chunk_view(cs@[k as int]));
        match &cs[k] {
            BibChunk::Name(s) => {
                let sc = to_chars(s.as_str());
                match first_variable_exec(names, &sc, Ghost(vv)) {
                    Some(j) => {
                        if f == 0 {
                            return false;
                        }
                        if !prev[j] {
                            return false;
                        }
                    },
                    None => {},
                }
            },
            BibChunk::Text(_) => {},
        }
        k = k + 1;
    }
    assert(cv.skip(k as int).len() == 0);
    true
}

fn variables_acyclic_exec(vars: &Vec<BibVariable>) -> (r: bool)
    ensures
        r == variables_acyclic(variables_view(vars@)),
{
    let ghost vv = variables_view(vars@);
    let n = vars.len();
    let mut names: Vec<Vec<char>> = Vec::new();
    let mut i: usize = 0;
    while i < n
        invariant
            n == vars.len(),
            vv == variables_view(vars@),
            i <= n,
            names.len() == i,
            forall|k: int| 0 <= k < i ==> (#[trigger] names@[k])@ == vv[k].0,
        decreases n - i,
    {
        names.push(to_chars(vars[i].name.as_str()));
        i = i + 1;
    }
    let mut prev: Vec<bool> = Vec::new();
    let mut i: usize = 0;
    while i < n
        invariant
            i <= n,
            prev.len() == i,
        decreases n - i,
    {
        prev.push(false);
        i = i + 1;
    }
    let mut f: usize = 0;
    loop
        invariant
            n == vars.len(),
            vv == variables_view(vars@),
            vv.len() == n,
            f <= n,
            names.len() == n,
            forall|k: int| 0 <= k < n ==> (#[trigger] names@[k])@ == vv[k].0,
            prev.len() == n,
            f > 0 ==> forall|j: int| 0 <= j < n ==> #[trigger] prev@[j] == expands_within(vv, vv[j].1, (f - 1) as nat),
        decreases n - f,
    {
        let mut cur: Vec<bool> = Vec::new();
        let mut a: usize = 0;
        while a < n
            invariant
                n == vars.len(),
                vv == variables_view(vars@),
                vv.len() == n,
                a <= n,
                cur.len() == a,
                names.len() == n,
                forall|k: int| 0 <= k < n ==> (#[trigger] names@[k])@ == vv[k].0,
                prev.len() == n,
                f > 0 ==> forall|j: int| 0 <= j < n ==> #[trigger] prev@[j] == expands_within(vv, vv[j].1, (f - 1) as nat),
                forall|j: int| 0 <= j < a ==> #[trigger] cur@[j] == expands_within(vv, vv[j].1, f as nat),
            decreases n - a,
        {
            assert(vv[a as int].1 == vars@[a as int].value@.map_values(|c: BibChunk| chunk_view(c)));
            let ok = chunks_within(&vars[a].value, &names, f, &prev, Ghost(vv));
            cur.push(ok);
            a = a + 1;
        }
        if f == n {
            let mut b: usize = 0;
            while b < n
                invariant
                    b <= n,
                    vv == variables_view(vars@),
                    cur.len() == n,
                    vv.len() == n,
                    f == n,
                    forall|j: int| 0 <= j < n ==> #[trigger] cur@[j] == expands_within(vv, vv[j].1, f as nat),
                    forall|j: int| 0 <= j < b ==> #[trigger] expands_within(vv, vv[j].1, vv.len()),
                decreases n - b,
            {
                if !cur[b] {
                    assert(!expands_within(vv, vv[b as int].1, vv.len()));
                    return false;
                }
                assert(expands_within(vv, vv[b as int].1, vv.len()));
                b = b + 1;
            }
            assert(variables_acyclic(vv));
            return true;
        }
        prev = cur;
        f = f + 1;
    }
}

/// Whether [`bibtex_parse_safe`] holds of the text.
pub fn bibtex_text_is_safe(content: &str) -> (r: bool)
    ensures
        r == bibtex_parse_safe(content@),
{
    let v = to_chars(content);
    if value_scan_breaks_exec(&v) {
        return false;
    }
    match bibtex_raw_variables(content) {
        Some(es) => {
            let vars = collect_variables(es);
            variables_acyclic_exec(&vars)
        },
        None => true,
    }
}

/// `nom_bibtex::Bibtex::parse`, with each bibliography entry copied into a
/// [`BibRecord`]. It is called only on texts that [`bibtex_parse_safe`] admits,
/// on which the parser returns. The crate keeps the tags in a `HashMap`, so each name occurs
/// once; the order in which they are copied out is not stated (it follows the
/// map's iteration order). The error text is the crate's error, formatted with
/// `{:?}` behind a fixed prefix; its wording is not stated.
#[verifier::external_body]
fn parse_bibtex(content: &str) -> (r: Result<Vec<BibRecord>, String>)
    requires
        bibtex_parse_safe(content@),
    ensures
        match r {
            Ok(v) => spec_bibtex_parse(content@) is Some && v@.len() == spec_bibtex_parse(
                content@,
            )->0.len() && forall|i: int|
                0 <= i < v@.len() ==> {
                    let p = spec_bibtex_parse(content@)->0[i];
                    &&& (#[trigger] v@[i]).entry_type@ == p.0
                    &&& v@[i].citation_key@ == p.1
                    &&& tags_distinct(crate::models::pairs_view(v@[i].tags@))
                    &&& tags_map(crate::models::pairs_view(v@[i].tags@)) == p.2
                },
            Err(_) => spec_bibtex_parse(content@) is None,
        },
{
    match nom_bibtex::Bibtex::parse(content) {
        Ok(bib) => Ok(
            bib.bibliographies().iter().map(
                |e| BibRecord {
                    entry_type: e.entry_type().to_string(),
                    citation_key: e.citation_key().to_string(),
                    tags: e.tags().iter().map(|(k, v)| (k.clone(), v.clone())).collect(),
                },
            ).collect(),
        ),
        Err(e) => Err(format!("BibTeX 解析エラー: {:?}", e)),
    }
}

/// The value of the first tag named `k`.
fn get_tag<'a>(tags: &'a Vec<(String, String)>, k: &str) -> (r: Option<&'a String>)
    ensures
        match r {
            Some(v) => tag_get(crate::models::pairs_view(tags@), k@) == Some(v@),
            None => tag_get(crate::models::pairs_view(tags@), k@) is None,
        },
{
    let ghost tv = crate::models::pairs_view(tags@);
    let kc = to_chars(k);
    let mut i: usize = 0;
    assert(tv.skip(0) == tv);
    while i < tags.len()
        invariant
            i <= tags.len(),
            tv == crate::models::pairs_view(tags@),
            kc@ == k@,
            tag_get(tv, k@) == tag_get(tv.skip(i as int), k@),
        decreases tags.len() - i,
    {
        let name = to_chars(tags[i].0.as_str());
        proof {
            assert(tv.skip(i as int)[0] == tv[i as int]);
            assert(tv.skip(i as int).drop_first() == tv.skip(i + 1));
        }
        if chars_eq(&name, &kc) {
            return Some(&tags[i].1);
        }
        i = i + 1;
    }
    proof {
        assert(tv.skip(tags.len() as int).len() == 0);
    }
    None
}

/// A trimmed, non-blank tag value.
pub open spec fn non_empty_spec(v: Option<Seq<char>>) -> Option<Seq<char>> {
    match v {
        Some(s) => if trim_spec(s).len() > 0 {
            Some(trim_spec(s))
        } else {
            None
        },
        None => None,
    }
}

/// The trimmed value, or `None` when absent or blank.
pub fn non_empty(opt: Option<&String>) -> (r: Option<String>)
    ensures
        opt_view(r) == non_empty_spec(
            match opt {
                Some(s) => Some(s@),
                None => None,
            },
        ),
{
    match opt {
        Some(s) => {
            let c = to_chars(s.as_str());
            let t = trim_chars(&c);
            if t.len() > 0 {
                Some(from_chars(&t))
            } else {
                None
            }
        },
        None => None,
    }
}

/// Tags with their own fields on an entry (everything else goes to the
/// type-specific fields).
pub open spec fn is_known_tag(k: Seq<char>) -> bool {
    k == "title"@ || k == "author"@ || k == "year"@ || k == "doi"@ || k == "eprint"@ || k
        == "arxivid"@ || k == "isbn"@ || k == "url"@ || k == "abstract"@ || k == "note"@ || k
        == "annote"@
}

/// The type-specific fields of an imported entry: every other tag whose value
/// is not blank, trimmed, in tag order.
pub open spec fn extra_of_tags(tags: Seq<(Seq<char>, Seq<char>)>) -> Seq<(Seq<char>, Seq<char>)>
    decreases tags.len(),
{
    if tags.len() == 0 {
        seq![]
    } else {
        let (k, v) = tags.last();
        if !is_known_tag(k) && trim_spec(v).len() > 0 {
            extra_of_tags(tags.drop_last()).push((k, trim_spec(v)))
        } else {
            extra_of_tags(tags.drop_last())
        }
    }
}

fn is_known_tag_exec(k: &Vec<char>) -> (r: bool)
    ensures
        r == is_known_tag(k@),
{
    is_lit(k, "title") || is_lit(k, "author") || is_lit(k, "year") || is_lit(k, "doi") || is_lit(
        k,
        "eprint",
    ) || is_lit(k, "arxivid") || is_lit(k, "isbn") || is_lit(k, "url") || is_lit(k, "abstract")
        || is_lit(k, "note") || is_lit(k, "annote")
}

/// `r` is what the entry with BibTeX type `entry_type` and tags `tv` becomes on
/// import (see [`bibliography_to_input`]); the citation key is not part of it.
pub open spec fn converted_input(
    r: Option<EntryInput>,
    entry_type: Seq<char>,
    tv: Seq<(Seq<char>, Seq<char>)>,
) -> bool {
    match r {
        None => non_empty_spec(tag_get(tv, "title"@)) is None,
        Some(e) => {
            &&& non_empty_spec(tag_get(tv, "title"@)) == Some(e.title@)
            &&& e.entry_type@ == entry_type_of_lower(spec_to_lowercase(entry_type))
            &&& match e.authors {
                Some(a) => a@.len() > 0 && tag_get(tv, "author"@) is Some && authors_view(a@)
                    == parse_authors_spec(tag_get(tv, "author"@)->0),
                None => tag_get(tv, "author"@) is None || parse_authors_spec(
                    tag_get(tv, "author"@)->0,
                ).len() == 0,
            }
            &&& e.year == match tag_get(tv, "year"@) {
                Some(y) => parse_i64_spec(trim_spec(y)),
                None => None,
            }
            &&& opt_view(e.doi) == non_empty_spec(tag_get(tv, "doi"@))
            &&& opt_view(e.arxiv_id) == match non_empty_spec(tag_get(tv, "eprint"@)) {
                Some(x) => Some(x),
                None => non_empty_spec(tag_get(tv, "arxivid"@)),
            }
            &&& opt_view(e.isbn) == non_empty_spec(tag_get(tv, "isbn"@))
            &&& opt_view(e.url) == non_empty_spec(tag_get(tv, "url"@))
            &&& opt_view(e.abstract_) == non_empty_spec(tag_get(tv, "abstract"@))
            &&& opt_view(e.notes) == non_empty_spec(
                match tag_get(tv, "note"@) {
                    Some(n) => Some(n),
                    None => tag_get(tv, "annote"@),
                },
            )
            &&& pairs_view(e.extra_fields@) == extra_of_tags(tv)
            &&& e.author_names@.len() == 0
            &&& e.author_ids@.len() == 0
            &&& e.tag_ids@.len() == 0
        },
    }
}

/// The entry to create from one BibTeX entry, or `None` when it has no
/// non-blank `title` (such entries are skipped).
///
/// Field by field: `title` trimmed; the entry type mapped by [`map_entry_type`];
/// authors parsed from `author` (absent when none); `year` parsed as an integer
/// after trimming; `doi`, `isbn`, `url`, `abstract` trimmed and non-blank; the
/// arXiv id from `eprint`, else `arxivid`; notes from `note` (from `annote` only
/// when there is no `note` tag); every other non-blank tag becomes a
/// type-specific field.
pub fn bibliography_to_input(entry: &BibRecord) -> (r: Option<EntryInput>)
    ensures
        converted_input(r, entry.entry_type@, crate::models::pairs_view(entry.tags@)),
        r matches Some(e) ==> e.citation_key is None,
{
    let ghost tv = crate::models::pairs_view(entry.tags@);
    let title = non_empty(get_tag(&entry.tags, "title"));
    let title = match title {
        Some(t) => t,
        None => {
            return None;
        },
    };
    let entry_type = map_entry_type(entry.entry_type.as_str());
    let authors: Vec<AuthorInput> = match get_tag(&entry.tags, "author") {
        Some(a) => parse_authors(a.as_str()),
        None => Vec::new(),
    };
    let year = match get_tag(&entry.tags, "year") {
        Some(y) => {
            let yc = to_chars(y.as_str());
            let yt = trim_chars(&yc);
            parse_i64(&yt)
        },
        None => None,
    };
    let doi = non_empty(get_tag(&entry.tags, "doi"));
    let arxiv_id = match non_empty(get_tag(&entry.tags, "eprint")) {
        Some(x) => Some(x),
        None => non_empty(get_tag(&entry.tags, "arxivid")),
    };
    let isbn = non_empty(get_tag(&entry.tags, "isbn"));
    let url = non_empty(get_tag(&entry.tags, "url"));
    let abstract_ = non_empty(get_tag(&entry.tags, "abstract"));
    let note_src = match get_tag(&entry.tags, "note") {
        Some(n) => Some(n),
        None => get_tag(&entry.tags, "annote"),
    };
    let notes = non_empty(note_src);
    let mut extra: Vec<(String, String)> = Vec::new();
    let mut i: usize = 0;
    while i < entry.tags.len()
        invariant
            i <= entry.tags.len(),
            tv == crate::models::pairs_view(entry.tags@),
            pairs_view(extra@) == extra_of_tags(tv.take(i as int)),
        decreases entry.tags.len() - i,
    {
        let k = to_chars(entry.tags[i].0.as_str());
        let v = to_chars(entry.tags[i].1.as_str());
        let vt = trim_chars(&v);
        proof {
            assert(tv.take(i + 1).drop_last() == tv.take(i as int));
            assert(tv.take(i + 1).last() == tv[i as int]);
        }
        if !is_known_tag_exec(&k) && vt.len() > 0 {
            let ghost before = pairs_view(extra@);
            extra.push((entry.tags[i].0.clone(), from_chars(&vt)));
            assert(pairs_view(extra@) == before.push((k@, vt@)));
        }
        i = i + 1;
    }
    assert(tv.take(entry.tags.len() as int) == tv);
    let authors_opt = if authors.len() == 0 {
        None
    } else {
        Some(authors)
    };
    Some(
        EntryInput {
            title,
            entry_type,
            year,
            doi,
            arxiv_id,
            isbn,
            url,
            abstract_,
            notes,
            citation_key: None,
            extra_fields: extra,
            authors: authors_opt,
            author_names: Vec::new(),
            author_ids: Vec::new(),
            tag_ids: Vec::new(),
        },
    )
}

} // verus!

verus! {

// ── planning an import ─────────────────────────────────────────────────────

/// One entry of a `.bib` file as it will be imported: its key in the file and the
/// entry to create (`None` = skipped for lack of a title).
#[derive(Debug)]
pub struct ImportItem {
    pub source_key: String,
    pub input: Option<EntryInput>,
}

/// Keys for import, in order: an entry without a base gets none; an entry with a
/// base gets it de-duplicated against `used` and the keys given before it.
pub open spec fn dedup_all(bases: Seq<Option<Seq<char>>>, used: Seq<Seq<char>>) -> Seq<
    Option<Seq<char>>,
>
    decreases bases.len(),
{
    if bases.len() == 0 {
        seq![]
    } else {
        match bases[0] {
            None => seq![None] + dedup_all(bases.drop_first(), used),
            Some(b) => {
                let k = dedup_spec(b, used);
                seq![Some(k)] + dedup_all(bases.drop_first(), used.push(k))
            },
        }
    }
}

/// The citation-key base of an imported entry: its sanitised key in the file,
/// when it is imported at all and the key is not blank after sanitising.
pub open spec fn import_base(input: Option<EntryInput>, source_key: Seq<char>) -> Option<Seq<char>> {
    let k = crate::entries::keep_cite_chars(trim_spec(source_key));
    if input is Some && k.len() > 0 {
        Some(k)
    } else {
        None
    }
}

/// Reads a `.bib` file and decides what to import (see [`plan_records`]): for
/// each bibliography entry, in file order, the entry to create and, when its key
/// in the file survives sanitising, that key made unique against `existing` keys
/// and the keys given to earlier entries of the file.
///
/// Fails when the parser would panic or not return on the text (see
/// [`bibtex_parse_safe`]: a value that runs to the end of the text where it is
/// then sliced wrongly, or a string variable defined through itself), when the
/// file does not parse, or (beyond any real size) when the key list could not grow.
pub fn plan_import(content: &str, existing: Vec<String>) -> (r: Result<Vec<ImportItem>, String>)
    ensures
        r is Ok <==> bibtex_parse_safe(content@) && spec_bibtex_parse(content@) is Some && existing@.len()
            + spec_bibtex_parse(content@)->0.len() < usize::MAX,
        match r {
            Ok(items) => {
                let p = spec_bibtex_parse(content@)->0;
                &&& items@.len() == p.len()
                &&& forall|i: int|
                    0 <= i < items@.len() ==> (#[trigger] items@[i]).source_key@ == p[i].1 && exists|
                        tv: Seq<(Seq<char>, Seq<char>)>,
                    |
                        tags_distinct(tv) && tags_map(tv) == p[i].2 && converted_input(
                            items@[i].input,
                            p[i].0,
                            tv,
                        )
                &&& forall|i: int|
                    0 <= i < items@.len() ==> match (#[trigger] items@[i]).input {
                        Some(e) => opt_view(e.citation_key) == dedup_all(
                            items@.map_values(
                                |it: ImportItem| import_base(it.input, it.source_key@),
                            ),
                            strings_view(existing@),
                        )[i],
                        None => true,
                    }
            },
            Err(_) => true,
        },
{
    if !bibtex_text_is_safe(content) {
        return Err(from_chars(&to_chars(
            "BibTeX text not read: a value runs to the end of the text, or a string variable is defined through itself",
        )));
    }
    let records = parse_bibtex(content)?;
    let ghost recs = records@;
    let ghost p = spec_bibtex_parse(content@)->0;
    let r = plan_records(records, existing);
    proof {
        match &r {
            Ok(items) => {
                assert forall|i: int| 0 <= i < items@.len() implies (#[trigger] items@[i]).source_key@ == p[i].1
                    && exists|tv: Seq<(Seq<char>, Seq<char>)>|
                    tags_distinct(tv) && tags_map(tv) == p[i].2 && converted_input(
                        items@[i].input,
                        p[i].0,
                        tv,
                    ) by {
                    let tv = crate::models::pairs_view(recs[i].tags@);
                    assert(recs[i].entry_type@ == p[i].0);
                }
            },
            Err(_) => {},
        }
    }
    r
}

/// Decides what to import from parsed bibliography entries: for each record, in
/// order, the entry to create (see [`bibliography_to_input`]) and, when its key
/// survives sanitising, that key made unique against `existing` keys and the
/// keys given to earlier records.
///
/// Fails exactly when the key list could not grow (beyond any real size).
pub fn plan_records(records: Vec<BibRecord>, existing: Vec<String>) -> (r: Result<Vec<ImportItem>, String>)
    ensures
        r is Err <==> existing@.len() + records@.len() >= usize::MAX,
        match r {
            Ok(items) => {
                &&& items@.len() == records@.len()
                &&& forall|i: int|
                    0 <= i < items@.len() ==> (#[trigger] items@[i]).source_key@ == records@[i].citation_key@
                        && converted_input(
                        items@[i].input,
                        records@[i].entry_type@,
                        crate::models::pairs_view(records@[i].tags@),
                    )
                &&& forall|i: int|
                    0 <= i < items@.len() ==> match (#[trigger] items@[i]).input {
                        Some(e) => opt_view(e.citation_key) == dedup_all(
                            items@.map_values(
                                |it: ImportItem| import_base(it.input, it.source_key@),
                            ),
                            strings_view(existing@),
                        )[i],
                        None => true,
                    }
            },
            Err(_) => true,
        },
{
    if records.len() >= usize::MAX - existing.len() {
        return Err(from_chars(&to_chars("too many citation keys")));
    }
    let mut used = existing;
    let ghost used0 = strings_view(used@);
    let mut items: Vec<ImportItem> = Vec::new();
    let ghost mut bases: Seq<Option<Seq<char>>> = seq![];
    let mut i: usize = 0;
    while i < records.len()
        invariant
            i <= records.len(),
            used@.len() <= used0.len() + i,
            used0.len() + records@.len() < usize::MAX,
            items@.len() == i,
            bases.len() == i,
            bases == items@.map_values(|it: ImportItem| import_base(it.input, it.source_key@)),
            forall|j: int|
                0 <= j < i ==> (#[trigger] items@[j]).source_key@ == records@[j].citation_key@
                    && converted_input(
                    items@[j].input,
                    records@[j].entry_type@,
                    crate::models::pairs_view(records@[j].tags@),
                ),
            forall|j: int|
                0 <= j < i ==> match (#[trigger] items@[j]).input {
                    Some(e) => opt_view(e.citation_key) == dedup_all(bases, used0)[j],
                    None => true,
                },
            dedup_all(bases, used0).len() == i,
            strings_view(used@) == used0 + dedup_all(bases, used0).filter_map(
                |k: Option<Seq<char>>| k,
            ),
        decreases records.len() - i,
    {
        let rec = &records[i];
        let conv = bibliography_to_input(rec);
        let source_key = rec.citation_key.clone();
        let ghost tv = crate::models::pairs_view(rec.tags@);
        let ghost old_used = strings_view(used@);
        let ghost old_len = used@.len();
        let ghost fm = |k: Option<Seq<char>>| k;
        let item = match conv {
            Some(mut input) => {
                match crate::entries::sanitize_citation_key(rec.citation_key.as_str()) {
                    Some(base) => {
                        let key = dedup_key(base.as_str(), &mut used);
                        proof {
                            let b = import_base(Some(input), source_key@);
                            assert(b == Some(base@));
                            lemma_dedup_all_push(bases, used0, b);
                            let d = dedup_all(bases, used0);
                            assert(d.push(Some(key@)).drop_last() == d);
                            assert(d.push(Some(key@)).filter_map(fm) == d.filter_map(fm).push(key@));
                            assert(dedup_all(bases.push(b), used0) == d.push(Some(key@)));
                            assert(strings_view(used@) == used0 + dedup_all(bases.push(b), used0).filter_map(fm));
                            assert(strings_view(used@).len() == used@.len());
                            assert(old_used.len() == old_len);
                            assert(used@.len() == old_len + 1);
                        }
                        input.citation_key = Some(key);
                    },
                    None => {
                        proof {
                            let b = import_base(Some(input), source_key@);
                            assert(b is None);
                            lemma_dedup_all_push(bases, used0, b);
                            let d = dedup_all(bases, used0);
                            assert(d.push(None).drop_last() == d);
                            assert(d.push(None).filter_map(fm) == d.filter_map(fm));
                            assert(dedup_all(bases.push(b), used0) == d.push(None));
                        }
                    },
                }
                ImportItem { source_key, input: Some(input) }
            },
            None => {
                proof {
                    let b: Option<Seq<char>> = None;
                    lemma_dedup_all_push(bases, used0, b);
                    let d = dedup_all(bases, used0);
                    assert(d.push(None).drop_last() == d);
                    assert(d.push(None).filter_map(fm) == d.filter_map(fm));
                    assert(dedup_all(bases.push(b), used0) == d.push(None));
                }
                ImportItem { source_key, input: None }
            },
        };
        proof {
            assert(converted_input(item.input, records@[i as int].entry_type@, tv));
            lemma_dedup_all_push(bases, used0, import_base(item.input, item.source_key@));
        }
        items.push(item);
        proof {
            bases = bases.push(import_base(item.input, item.source_key@));
            assert(bases == items@.map_values(
                |it: ImportItem| import_base(it.input, it.source_key@),
            ));
        }
        i = i + 1;
    }
    Ok(items)
}

/// Keys given after one more entry: the old keys and the new one's.
proof fn lemma_dedup_all_push(bases: Seq<Option<Seq<char>>>, used: Seq<Seq<char>>, b: Option<Seq<char>>)
    ensures
        dedup_all(bases.push(b), used) == dedup_all(bases, used) + seq![
            match b {
                Some(x) => Some(
                    dedup_spec(x, used + dedup_all(bases, used).filter_map(|k: Option<Seq<char>>| k)),
                ),
                None => None,
            },
        ],
        dedup_all(bases, used).len() == bases.len(),
    decreases bases.len(),
{
    if bases.len() == 0 {
        assert(bases.push(b).drop_first() == Seq::<Option<Seq<char>>>::empty());
        assert(dedup_all(Seq::<Option<Seq<char>>>::empty(), used) == Seq::<Option<Seq<char>>>::empty());
        assert(Seq::<Option<Seq<char>>>::empty().filter_map(|k: Option<Seq<char>>| k)
            == Seq::<Seq<char>>::empty());
        assert(used + Seq::<Seq<char>>::empty() == used);
        match b {
            Some(x) => {
                let k = dedup_spec(x, used);
                assert(dedup_all(bases.push(b), used) == seq![Some(k)] + dedup_all(
                    Seq::<Option<Seq<char>>>::empty(),
                    used.push(k),
                ));
            },
            None => {},
        }
    } else {
        let rest = bases.drop_first();
        assert(bases.push(b).drop_first() == rest.push(b));
        let used2 = match bases[0] {
            Some(x) => used.push(dedup_spec(x, used)),
            None => used,
        };
        lemma_dedup_all_push(rest, used2, b);
        let first = match bases[0] {
            Some(x) => Some(dedup_spec(x, used)),
            None => None,
        };
        assert(dedup_all(bases, used) == seq![first] + dedup_all(rest, used2));
        assert(dedup_all(bases.push(b), used) == seq![first] + dedup_all(rest.push(b), used2));
        lemma_filter_map_front(first, dedup_all(rest, used2));
        assert(used + dedup_all(bases, used).filter_map(|k: Option<Seq<char>>| k) == used2
            + dedup_all(rest, used2).filter_map(|k: Option<Seq<char>>| k));
    }
}

proof fn lemma_filter_map_front(x: Option<Seq<char>>, s: Seq<Option<Seq<char>>>)
    ensures
        (seq![x] + s).filter_map(|k: Option<Seq<char>>| k) == (match x {
            Some(v) => seq![v],
            None => Seq::<Seq<char>>::empty(),
        }) + s.filter_map(|k: Option<Seq<char>>| k),
    decreases s.len(),
{
    let f = |k: Option<Seq<char>>| k;
    if s.len() == 0 {
        assert(seq![x] + s == seq![x]);
        assert(seq![x].drop_last() == Seq::<Option<Seq<char>>>::empty());
        assert(Seq::<Option<Seq<char>>>::empty().filter_map(f) == Seq::<Seq<char>>::empty());
        assert(s.filter_map(f) == Seq::<Seq<char>>::empty());
        match x {
            Some(v) => {
                assert(seq![x].filter_map(f) == Seq::<Option<Seq<char>>>::empty().filter_map(f)
                    + seq![v]);
            },
            None => {},
        }
    } else {
        lemma_filter_map_front(x, s.drop_last());
        assert((seq![x] + s).drop_last() == seq![x] + s.drop_last());
        assert((seq![x] + s).last() == s.last());
    }
}

} // verus!

verus! {

// ── export of many entries and key preview ─────────────────────────────────

/// The item that key assignment sees for a stored entry: its pinned key and its
/// generated base.
pub open spec fn entry_key_item(e: EntryDetail) -> (Option<Seq<char>>, Seq<char>) {
    (
        opt_view(e.citation_key),
        base_key_spec(
            if e.author_names@.len() > 0 {
                Some(e.author_names@[0]@)
            } else {
                None
            },
            e.title@,
            e.year,
        ),
    )
}

/// The BibTeX of entries in the given order, entries separated by a newline,
/// each under the key [`assign_keys`] gives it.
pub fn export_text(entries: &Vec<EntryDetail>) -> (r: String)
    requires
        entries.len() < usize::MAX,
    ensures
        r@ == join_spec(export_texts(entries@), seq!['\n']),
{
    let keys = assign_keys(entries);
    proof {
        assert(entries@.map_values(|e: EntryDetail| entry_key_item(e)) == entries@.map_values(
            |e: EntryDetail|
                (
                    opt_view(e.citation_key),
                    base_key_spec(
                        if e.author_names@.len() > 0 {
                            Some(e.author_names@[0]@)
                        } else {
                            None
                        },
                        e.title@,
                        e.year,
                    ),
                ),
        ));
        lemma_export_keys_unique(entries@.map_values(|e: EntryDetail| entry_key_item(e)));
    }
    let mut parts: Vec<Vec<char>> = Vec::new();
    let mut i: usize = 0;
    while i < entries.len()
        invariant
            i <= entries.len(),
            keys@.len() == entries@.len(),
            strings_view(keys@) == assign_keys_spec(
                entries@.map_values(|e: EntryDetail| entry_key_item(e)),
            ),
            parts@.map_values(|p: Vec<char>| p@) == export_texts(entries@).take(i as int),
        decreases entries.len() - i,
    {
        let text = entry_to_bibtex(&entries[i], keys[i].as_str());
        let ghost before = parts@.map_values(|p: Vec<char>| p@);
        parts.push(to_chars(text.as_str()));
        proof {
            assert(keys@[i as int]@ == strings_view(keys@)[i as int]);
            assert(export_texts(entries@).take(i + 1) == export_texts(entries@).take(i as int).push(
                export_texts(entries@)[i as int],
            ));
            assert(parts@.map_values(|p: Vec<char>| p@) == before.push(text@));
        }
        i = i + 1;
    }
    assert(export_texts(entries@).take(entries.len() as int) == export_texts(entries@));
    let mut sep: Vec<char> = Vec::new();
    sep.push('\n');
    assert(sep@ == seq!['\n']);
    let out = crate::text::join_chars(&parts, &sep);
    from_chars(&out)
}

/// The text of each exported entry, in order, under its assigned key.
pub open spec fn export_texts(entries: Seq<EntryDetail>) -> Seq<Seq<char>> {
    Seq::new(
        entries.len(),
        |i: int|
            entry_bibtex_spec(
                entries[i],
                assign_keys_spec(entries.map_values(|e: EntryDetail| entry_key_item(e)))[i],
            ),
    )
}

/// The columns key preview reads for one entry of the `.bib` sync.
#[derive(Debug)]
pub struct KeyRow {
    pub id: i64,
    pub title: String,
    pub year: Option<i64>,
    pub citation_key: Option<String>,
    pub first_author: Option<String>,
}

/// The item that key assignment sees for a preview row.
pub open spec fn row_key_item(r: KeyRow) -> (Option<Seq<char>>, Seq<char>) {
    (opt_view(r.citation_key), base_key_spec(opt_view(r.first_author), r.title@, r.year))
}

/// First index of a row with id `id`.
pub open spec fn first_row_with_id(rows: Seq<KeyRow>, id: i64) -> Option<int> {
    if exists|i: int| 0 <= i < rows.len() && rows[i].id == id {
        Some(choose|i: int| 0 <= i < rows.len() && rows[i].id == id && forall|j: int| 0 <= j < i ==> rows[j].id != id)
    } else {
        None
    }
}

/// The key the `.bib` sync gives entry `entry_id` when the synced entries are
/// `rows` in export order; `None` when the entry is not among them.
pub fn resolve_key_among(rows: &Vec<KeyRow>, entry_id: i64) -> (r: Option<String>)
    requires
        rows.len() < usize::MAX,
    ensures
        match r {
            Some(k) => first_row_with_id(rows@, entry_id) is Some && k@ == assign_keys_spec(
                rows@.map_values(|x: KeyRow| row_key_item(x)),
            )[first_row_with_id(rows@, entry_id)->0],
            None => first_row_with_id(rows@, entry_id) is None,
        },
{
    let mut items: Vec<(Option<String>, String)> = Vec::new();
    let mut i: usize = 0;
    while i < rows.len()
        invariant
            i <= rows.len(),
            items_view(items@) == rows@.take(i as int).map_values(|x: KeyRow| row_key_item(x)),
        decreases rows.len() - i,
    {
        let row = &rows[i];
        let pinned = match &row.citation_key {
            Some(k) => Some(k.clone()),
            None => None,
        };
        let base = match &row.first_author {
            Some(a) => make_base_key(Some(a.as_str()), row.title.as_str(), row.year),
            None => make_base_key(None, row.title.as_str(), row.year),
        };
        let ghost before = items_view(items@);
        items.push((pinned, base));
        proof {
            assert(rows@.take(i + 1) == rows@.take(i as int).push(rows@[i as int]));
            assert(items_view(items@) == before.push(row_key_item(rows@[i as int])));
        }
        i = i + 1;
    }
    assert(rows@.take(rows.len() as int) == rows@);
    let keys = assign_keys_from(&items);
    proof {
        lemma_export_keys_unique(rows@.map_values(|x: KeyRow| row_key_item(x)));
    }
    let mut j: usize = 0;
    while j < rows.len()
        invariant
            j <= rows.len(),
            keys@.len() == rows@.len(),
            strings_view(keys@) == assign_keys_spec(rows@.map_values(|x: KeyRow| row_key_item(x))),
            forall|t: int| 0 <= t < j ==> rows@[t].id != entry_id,
        decreases rows.len() - j,
    {
        if rows[j].id == entry_id {
            proof {
                let w = choose|t: int|
                    0 <= t < rows@.len() && rows@[t].id == entry_id && forall|q: int|
                        0 <= q < t ==> rows@[q].id != entry_id;
                assert(0 <= j < rows@.len() && rows@[j as int].id == entry_id && forall|q: int|
                    0 <= q < j ==> rows@[q].id != entry_id);
                if w < j {
                } else if w > j {
                }
                assert(keys@[j as int]@ == strings_view(keys@)[j as int]);
            }
            return Some(keys[j].clone());
        }
        j = j + 1;
    }
    None
}

/// The key shown for an entry that is not part of the sync (e.g. in the
/// trash): its pinned key, else its generated base.
pub fn pinned_or_generated_key(entry: &EntryDetail) -> (k: String)
    ensures
        k@ == match entry.citation_key {
            Some(p) => p@,
            None => entry_key_item(*entry).1,
        },
{
    match &entry.citation_key {
        Some(p) => p.clone(),
        None => make_citation_key(entry),
    }
}

/// Preview and export agree: when the preview rows describe the same entries as
/// the exported ones, in the same order, the key previewed for the `i`-th entry
/// is the key the export writes for it.
pub proof fn lemma_preview_matches_export(rows: Seq<KeyRow>, entries: Seq<EntryDetail>, i: int)
    requires
        rows.len() == entries.len(),
        0 <= i < rows.len(),
        forall|j: int|
            0 <= j < rows.len() ==> #[trigger] row_key_item(rows[j]) == entry_key_item(entries[j]),
    ensures
        assign_keys_spec(rows.map_values(|x: KeyRow| row_key_item(x)))[i] == assign_keys_spec(
            entries.map_values(|e: EntryDetail| entry_key_item(e)),
        )[i],
{
    let a = rows.map_values(|x: KeyRow| row_key_item(x));
    let b = entries.map_values(|e: EntryDetail| entry_key_item(e));
    assert forall|j: int| 0 <= j < a.len() implies a[j] == b[j] by {
        assert(row_key_item(rows[j]) == entry_key_item(entries[j]));
    }
    assert(a == b);
}


/// The key the `.bib` sync previews for an entry heads that entry's exported
/// block: when the preview rows describe the exported entries in the same order,
/// the `i`-th block begins `@type{key,` with the previewed key. A pinned entry
/// keeps its pinned key, and a generated key differs from the key of every other
/// entry in the file.
pub proof fn lemma_resolved_key_heads_the_exported_block(rows: Seq<KeyRow>, entries: Seq<EntryDetail>, i: int)
    requires
        rows.len() == entries.len(),
        0 <= i < rows.len(),
        forall|j: int|
            0 <= j < rows.len() ==> #[trigger] row_key_item(rows[j]) == entry_key_item(entries[j]),
    ensures
        ({
            let keys = assign_keys_spec(rows.map_values(|x: KeyRow| row_key_item(x)));
            &&& ("@"@ + bib_type_of(entries[i].entry_type@) + "{"@ + keys[i] + ","@).is_prefix_of(
                export_texts(entries)[i],
            )
            &&& entries[i].citation_key matches Some(p) ==> keys[i] == p@
            &&& entries[i].citation_key is None ==> forall|j: int|
                0 <= j < rows.len() && j != i ==> #[trigger] keys[j] != keys[i]
        }),
{
    let a = rows.map_values(|x: KeyRow| row_key_item(x));
    let b = entries.map_values(|e: EntryDetail| entry_key_item(e));
    assert forall|j: int| 0 <= j < a.len() implies a[j] == b[j] by {
        assert(row_key_item(rows[j]) == entry_key_item(entries[j]));
    }
    assert(a == b);
    let keys = assign_keys_spec(a);
    lemma_export_keys_unique(a);
    let e = entries[i];
    let head = "@"@ + bib_type_of(e.entry_type@) + "{"@ + keys[i] + ","@;
    let text = export_texts(entries)[i];
    reveal_strlit(",");
    reveal_strlit(",\n");
    assert(",\n"@ == ","@ + "\n"@) by {
        reveal_strlit("\n");
    }
    assert(text == bib_text(e, keys[i], sort_by_key_spec(pairs_view(e.extra_fields@))));
    let tail = "\n"@ + join_spec(bib_fields(e, sort_by_key_spec(pairs_view(e.extra_fields@))), ",\n"@) + "\n}"@;
    assert(text =~= head + tail);
    assert(text.subrange(0, head.len() as int) =~= head);
    assert(a[i] == entry_key_item(e));
    if e.citation_key is None {
        assert(a[i].0 is None);
    }
}
} // verus!

verus! {

// ── what splitting keeps ───────────────────────────────────────────────────

/// Brace depth before position `j` of `s`: the `{` before it minus the `}`.
pub open spec fn brace_depth(s: Seq<char>, j: int) -> int
    decreases j,
{
    if j <= 0 {
        0
    } else {
        brace_depth(s, j - 1) + if s[j - 1] == '{' {
            1int
        } else if s[j - 1] == '}' {
            -1int
        } else {
            0int
        }
    }
}

/// Where part `m` starts in the list it was split from: after the parts and the
/// separators before it.
pub open spec fn part_start(parts: Seq<Seq<char>>, m: int) -> int
    decreases m,
{
    if m <= 0 {
        0
    } else {
        part_start(parts, m - 1) + parts[m - 1].len() + 5
    }
}

proof fn lemma_join_front(first: Seq<char>, rest: Seq<Seq<char>>)
    requires
        rest.len() >= 1,
    ensures
        join_spec(seq![first] + rest, and_sep()) == first + and_sep() + join_spec(rest, and_sep()),
    decreases rest.len(),
{
    let all = seq![first] + rest;
    let sep = and_sep();
    if rest.len() == 1 {
        assert(all.drop_last() =~= seq![first]);
        assert(join_spec(seq![first], sep) == first);
        assert(all.last() == rest[0]);
        assert(join_spec(rest, sep) == rest[0]);
        assert(join_spec(all, sep) == join_spec(all.drop_last(), sep) + sep + all.last());
    } else {
        lemma_join_front(first, rest.drop_last());
        assert(all.drop_last() =~= seq![first] + rest.drop_last());
        assert(all.last() == rest.last());
        assert(join_spec(all, sep) == join_spec(all.drop_last(), sep) + sep + all.last());
        assert(join_spec(rest, sep) == join_spec(rest.drop_last(), sep) + sep + rest.last());
        assert(first + sep + join_spec(rest.drop_last(), sep) + sep + rest.last() =~= first + sep + (join_spec(
            rest.drop_last(),
            sep,
        ) + sep + rest.last()));
    }
}

proof fn lemma_part_start_front(first: Seq<char>, rest: Seq<Seq<char>>, m: int)
    requires
        1 <= m <= rest.len() + 1,
    ensures
        part_start(seq![first] + rest, m) == first.len() + 5 + part_start(rest, m - 1),
    decreases m,
{
    let all = seq![first] + rest;
    assert(part_start(all, m) == part_start(all, m - 1) + all[m - 1].len() + 5);
    if m > 1 {
        lemma_part_start_front(first, rest, m - 1);
        assert(all[m - 1] == rest[m - 2]);
        assert(part_start(rest, m - 1) == part_start(rest, m - 2) + rest[m - 2].len() + 5);
    } else {
        assert(all[0] == first);
        assert(part_start(all, 0) == 0);
        assert(part_start(rest, 0) == 0);
    }
}

proof fn lemma_split_scan_keeps(s: Seq<char>, i: int, depth: int, start: int)
    requires
        0 <= start <= i <= s.len(),
        depth == brace_depth(s, i),
        forall|j: int| start <= j < i ==> !(brace_depth(s, j) == 0 && #[trigger] occurs_at(s, and_sep(), j)),
    ensures
        ({
            let parts = split_scan(s, i, depth, start);
            &&& parts.len() >= 1
            &&& join_spec(parts, and_sep()) == s.subrange(start, s.len() as int)
            &&& forall|m: int, q: int|
                0 <= m < parts.len() && #[trigger] occurs_at(parts[m], and_sep(), q) ==> brace_depth(
                    s,
                    start + part_start(parts, m) + q,
                ) != 0
        }),
    decreases s.len() - i,
{
    let parts = split_scan(s, i, depth, start);
    let sep = and_sep();
    if i >= s.len() {
        assert(parts == seq![s.subrange(start, s.len() as int)]);
        assert forall|m: int, q: int|
            0 <= m < parts.len() && #[trigger] occurs_at(parts[m], sep, q) implies brace_depth(
                s,
                start + part_start(parts, m) + q,
            ) != 0 by {
            assert(m == 0);
            assert(s.subrange(start + q, start + q + 5) =~= parts[0].subrange(q, q + 5));
            assert(occurs_at(s, sep, start + q));
        }
    } else if s[i] == '{' || s[i] == '}' {
        assert forall|j: int| start <= j < i + 1 implies !(brace_depth(s, j) == 0 && #[trigger] occurs_at(s, sep, j)) by {
            if j == i && occurs_at(s, sep, i) {
                assert(s.subrange(i, i + 5)[0] == s[i]);
                assert(sep[0] == ' ');
            }
        }
        if s[i] == '{' {
            lemma_split_scan_keeps(s, i + 1, depth + 1, start);
        } else {
            lemma_split_scan_keeps(s, i + 1, depth - 1, start);
        }
    } else if s[i] == ' ' && depth == 0 && occurs_at(s, sep, i) {
        let first = s.subrange(start, i);
        let d2 = brace_depth(s, i + 5);
        assert(d2 == depth) by {
            let w = s.subrange(i, i + 5);
            assert(w[0] == s[i] && w[1] == s[i + 1] && w[2] == s[i + 2] && w[3] == s[i + 3] && w[4] == s[i + 4]);
            assert(sep[0] == ' ' && sep[1] == 'a' && sep[2] == 'n' && sep[3] == 'd' && sep[4] == ' ');
            assert(brace_depth(s, i + 1) == depth);
            assert(brace_depth(s, i + 2) == depth);
            assert(brace_depth(s, i + 3) == depth);
            assert(brace_depth(s, i + 4) == depth);
        }
        lemma_split_scan_keeps(s, i + 5, depth, i + 5);
        let rest = split_scan(s, i + 5, depth, i + 5);
        assert(parts == seq![first] + rest);
        lemma_join_front(first, rest);
        assert(s.subrange(start, s.len() as int) =~= first + s.subrange(i, i + 5) + s.subrange(i + 5, s.len() as int));
        assert forall|m: int, q: int|
            0 <= m < parts.len() && #[trigger] occurs_at(parts[m], sep, q) implies brace_depth(
                s,
                start + part_start(parts, m) + q,
            ) != 0 by {
            if m == 0 {
                assert(parts[0] == first);
                assert(s.subrange(start + q, start + q + 5) =~= first.subrange(q, q + 5));
                assert(occurs_at(s, sep, start + q));
            } else {
                lemma_part_start_front(first, rest, m);
                assert(parts[m] == rest[m - 1]);
                assert(occurs_at(rest[m - 1], sep, q));
                assert(start + part_start(parts, m) + q == i + 5 + part_start(rest, m - 1) + q);
            }
        }
    } else {
        assert forall|j: int| start <= j < i + 1 implies !(brace_depth(s, j) == 0 && #[trigger] occurs_at(s, sep, j)) by {
            if j == i && occurs_at(s, sep, i) && brace_depth(s, i) == 0 {
                assert(s.subrange(i, i + 5)[0] == s[i]);
                assert(sep[0] == ' ');
            }
        }
        lemma_split_scan_keeps(s, i + 1, depth, start);
    }
}

/// Splitting an author list loses nothing and splits at every separator that
/// counts: joining the parts with `" and "` gives the list back, and no part
/// holds `" and "` at brace depth 0 of the list (`{Smith and Jones Inc}` stays
/// whole).
pub proof fn lemma_split_authors_keeps_the_list(s: Seq<char>)
    ensures
        join_spec(split_authors_spec(s), and_sep()) == s,
        forall|m: int, q: int|
            0 <= m < split_authors_spec(s).len() && #[trigger] occurs_at(split_authors_spec(s)[m], and_sep(), q)
                ==> brace_depth(s, part_start(split_authors_spec(s), m) + q) != 0,
{
    lemma_split_scan_keeps(s, 0, 0, 0);
    assert(s.subrange(0, s.len() as int) =~= s);
}

} // verus!

verus! {

/// The BibTeX entry types the import knows fall into groups, and every spelling
/// in a group (lower-cased) imports as the group's type: `@phdthesis`,
/// `@mastersthesis` and `@thesis` all become `thesis`, `@techreport` and
/// `@report` become `report`, and so on; only the thesis spellings become
/// `thesis`.
#[verifier::rlimit(80)]
pub proof fn lemma_entry_type_groups(t: Seq<char>)
    ensures
        (t == "article"@ || t == "periodical"@ || t == "suppperiodical"@) ==> entry_type_of_lower(t) == "article"@,
        (t == "book"@ || t == "booklet"@ || t == "collection"@ || t == "mvbook"@ || t == "mvcollection"@ || t == "reference"@ || t == "mvreference"@) ==> entry_type_of_lower(t) == "book"@,
        (t == "incollection"@ || t == "inbook"@ || t == "suppbook"@ || t == "suppcollection"@ || t == "inreference"@) ==> entry_type_of_lower(t) == "bookSection"@,
        (t == "inproceedings"@ || t == "conference"@ || t == "proceedings"@ || t == "mvproceedings"@) ==> entry_type_of_lower(t) == "inproceedings"@,
        (t == "phdthesis"@ || t == "mastersthesis"@ || t == "thesis"@) ==> entry_type_of_lower(t) == "thesis"@,
        (t == "techreport"@ || t == "report"@) ==> entry_type_of_lower(t) == "report"@,
        (t == "unpublished"@) ==> entry_type_of_lower(t) == "manuscript"@,
        (t == "patent"@) ==> entry_type_of_lower(t) == "patent"@,
        (t == "standard"@) ==> entry_type_of_lower(t) == "standard"@,
        (t == "dataset"@) ==> entry_type_of_lower(t) == "dataset"@,
        (t == "software"@) ==> entry_type_of_lower(t) == "computerProgram"@,
        (t == "online"@ || t == "electronic"@ || t == "www"@ || t == "webpage"@) ==> entry_type_of_lower(t) == "webpage"@,
        entry_type_of_lower(t) == "thesis"@ ==> (t == "phdthesis"@ || t == "mastersthesis"@ || t == "thesis"@),
{
    reveal_strlit("article");
    reveal_strlit("book");
    reveal_strlit("bookSection");
    reveal_strlit("booklet");
    reveal_strlit("collection");
    reveal_strlit("computerProgram");
    reveal_strlit("conference");
    reveal_strlit("dataset");
    reveal_strlit("electronic");
    reveal_strlit("inbook");
    reveal_strlit("incollection");
    reveal_strlit("inproceedings");
    reveal_strlit("inreference");
    reveal_strlit("manuscript");
    reveal_strlit("mastersthesis");
    reveal_strlit("misc");
    reveal_strlit("mvbook");
    reveal_strlit("mvcollection");
    reveal_strlit("mvproceedings");
    reveal_strlit("mvreference");
    reveal_strlit("online");
    reveal_strlit("patent");
    reveal_strlit("periodical");
    reveal_strlit("phdthesis");
    reveal_strlit("proceedings");
    reveal_strlit("reference");
    reveal_strlit("report");
    reveal_strlit("software");
    reveal_strlit("standard");
    reveal_strlit("suppbook");
    reveal_strlit("suppcollection");
    reveal_strlit("suppperiodical");
    reveal_strlit("techreport");
    reveal_strlit("thesis");
    reveal_strlit("unpublished");
    reveal_strlit("webpage");
    reveal_strlit("www");
    assert("article"@.len() == 7);
    assert("book"@.len() == 4);
    assert("bookSection"@.len() == 11);
    assert("booklet"@.len() == 7);
    assert("collection"@.len() == 10);
    assert("computerProgram"@.len() == 15);
    assert("conference"@.len() == 10);
    assert("dataset"@.len() == 7);
    assert("electronic"@.len() == 10);
    assert("inbook"@.len() == 6);
    assert("incollection"@.len() == 12);
    assert("inproceedings"@.len() == 13);
    assert("inreference"@.len() == 11);
    assert("manuscript"@.len() == 10);
    assert("mastersthesis"@.len() == 13);
    assert("mvbook"@.len() == 6);
    assert("mvcollection"@.len() == 12);
    assert("mvproceedings"@.len() == 13);
    assert("mvreference"@.len() == 11);
    assert("online"@.len() == 6);
    assert("patent"@.len() == 6);
    assert("periodical"@.len() == 10);
    assert("phdthesis"@.len() == 9);
    assert("proceedings"@.len() == 11);
    assert("reference"@.len() == 9);
    assert("report"@.len() == 6);
    assert("software"@.len() == 8);
    assert("standard"@.len() == 8);
    assert("suppbook"@.len() == 8);
    assert("suppcollection"@.len() == 14);
    assert("suppperiodical"@.len() == 14);
    assert("techreport"@.len() == 10);
    assert("thesis"@.len() == 6);
    assert("unpublished"@.len() == 11);
    assert("webpage"@.len() == 7);
    assert("www"@.len() == 3);
    assert("article"@[0] != "booklet"@[0]);
    assert("article"@[0] != "dataset"@[0]);
    assert("article"@[0] != "webpage"@[0]);
    assert("bookSection"@[0] != "inreference"@[0]);
    assert("bookSection"@[0] != "mvreference"@[0]);
    assert("bookSection"@[0] != "proceedings"@[0]);
    assert("bookSection"@[0] != "unpublished"@[0]);
    assert("booklet"@[0] != "dataset"@[0]);
    assert("booklet"@[0] != "webpage"@[0]);
    assert("collection"@[2] != "conference"@[2]);
    assert("collection"@[0] != "electronic"@[0]);
    assert("collection"@[0] != "manuscript"@[0]);
    assert("collection"@[0] != "periodical"@[0]);
    assert("collection"@[0] != "techreport"@[0]);
    assert("conference"@[0] != "electronic"@[0]);
    assert("conference"@[0] != "manuscript"@[0]);
    assert("conference"@[0] != "periodical"@[0]);
    assert("conference"@[0] != "techreport"@[0]);
    assert("dataset"@[0] != "webpage"@[0]);
    assert("electronic"@[0] != "manuscript"@[0]);
    assert("electronic"@[0] != "periodical"@[0]);
    assert("electronic"@[0] != "techreport"@[0]);
    assert("inbook"@[0] != "mvbook"@[0]);
    assert("inbook"@[0] != "online"@[0]);
    assert("inbook"@[0] != "patent"@[0]);
    assert("inbook"@[0] != "report"@[0]);
    assert("inbook"@[0] != "thesis"@[0]);
    assert("incollection"@[0] != "mvcollection"@[0]);
    assert("inproceedings"@[0] != "mastersthesis"@[0]);
    assert("inproceedings"@[0] != "mvproceedings"@[0]);
    assert("inreference"@[0] != "mvreference"@[0]);
    assert("inreference"@[0] != "proceedings"@[0]);
    assert("inreference"@[0] != "unpublished"@[0]);
    assert("manuscript"@[0] != "periodical"@[0]);
    assert("manuscript"@[0] != "techreport"@[0]);
    assert("mastersthesis"@[1] != "mvproceedings"@[1]);
    assert("mvbook"@[0] != "online"@[0]);
    assert("mvbook"@[0] != "patent"@[0]);
    assert("mvbook"@[0] != "report"@[0]);
    assert("mvbook"@[0] != "thesis"@[0]);
    assert("mvreference"@[0] != "proceedings"@[0]);
    assert("mvreference"@[0] != "unpublished"@[0]);
    assert("online"@[0] != "patent"@[0]);
    assert("online"@[0] != "report"@[0]);
    assert("online"@[0] != "thesis"@[0]);
    assert("patent"@[0] != "report"@[0]);
    assert("patent"@[0] != "thesis"@[0]);
    assert("periodical"@[0] != "techreport"@[0]);
    assert("phdthesis"@[0] != "reference"@[0]);
    assert("proceedings"@[0] != "unpublished"@[0]);
    assert("report"@[0] != "thesis"@[0]);
    assert("software"@[1] != "standard"@[1]);
    assert("software"@[1] != "suppbook"@[1]);
    assert("standard"@[1] != "suppbook"@[1]);
    assert("suppcollection"@[4] != "suppperiodical"@[4]);
}

} // verus!

verus! {

proof fn lemma_keep_concat(a: Seq<char>, b: Seq<char>)
    ensures
        keep_key_chars(a + b) == keep_key_chars(a) + keep_key_chars(b),
    decreases b.len(),
{
    if b.len() == 0 {
        assert(a + b =~= a);
        assert(keep_key_chars(a) + keep_key_chars(b) =~= keep_key_chars(a));
    } else {
        lemma_keep_concat(a, b.drop_last());
        assert((a + b).drop_last() =~= a + b.drop_last());
        assert((a + b).last() == b.last());
        if is_key_char(b.last()) {
            assert(keep_key_chars(a) + keep_key_chars(b) =~= (keep_key_chars(a) + keep_key_chars(b.drop_last())).push(
                b.last(),
            ));
        }
    }
}

/// Where a generated key's name comes from: with a first author (not blank) it
/// begins with the author's last word, lower-cased; without one and with a title
/// (not blank) it begins with the title's first word, lower-cased (`Deep Learning`
/// gives a key beginning `deep`); either way it ends with the year's digits, or
/// `nd` without a year. Only ASCII letters, digits and `_` are kept throughout.
pub proof fn lemma_generated_key_parts(first_author: Option<Seq<char>>, title: Seq<char>, year: Option<i64>)
    ensures
        ({
            let key = base_key_spec(first_author, title, year);
            let tail = keep_key_chars(
                match year {
                    Some(y) => int_text(y as int),
                    None => "nd"@,
                },
            );
            &&& (first_author matches Some(a) && trim_spec(a).len() > 0) ==> key == keep_key_chars(
                spec_to_lowercase(last_word(first_author->0)),
            ) + tail
            &&& (!(first_author matches Some(a) && trim_spec(a).len() > 0) && trim_spec(title).len() > 0) ==> key
                == keep_key_chars(spec_to_lowercase(first_word(title))) + tail
        }),
{
    lemma_keep_concat(key_name_part(first_author, title), key_year_part(year));
}

} // verus!
