//! Author matching rules: the name key that authors are matched by, the author
//! list that an entry input carries, and the checks on an author identifier.

use unicode_normalization::UnicodeNormalization;
use vstd::prelude::*;
use vstd::string::StrSliceExecFns;

use crate::models::{
    authors_view, idents_view, opt_view, AuthorIdentifierInput, AuthorInput, AuthorView, EntryInput,
};
use crate::text::{
    all_ascii, ascii_lower_spec, from_chars, lowercase_chars, spec_to_lowercase, to_chars,
    trim_chars, trim_spec,
};

verus! {

// ── Unicode NFKC (unicode-normalization) ──────────────────────────────────

/// What `UnicodeNormalization::nfkc` yields for a string (compatibility
/// decomposition followed by canonical composition, UAX #15).
pub uninterp spec fn spec_nfkc(s: Seq<char>) -> Seq<char>;

/// `unicode_normalization::UnicodeNormalization::nfkc`, collected. Its result
/// depends on the chars alone; 7-bit ASCII never decomposes nor composes, so an
/// ASCII string comes back unchanged. Nothing more of the Unicode tables is stated.
#[verifier::external_body]
fn nfkc_chars(v: &Vec<char>) -> (r: Vec<char>)
    ensures
        r@ == spec_nfkc(v@),
        all_ascii(v@) ==> r@ == v@,
{
    v.iter().copied().nfkc().collect()
}

// ── the matching key of an author name ────────────────────────────────────

/// The key two author names are matched by: trimmed, NFKC-normalised, lowercased.
pub open spec fn name_key(s: Seq<char>) -> Seq<char> {
    spec_to_lowercase(spec_nfkc(trim_spec(s)))
}

/// The matching key of an author name (`trim`, then NFKC, then `to_lowercase`).
/// On a name whose trimmed text is ASCII the key is that text with `A`..`Z` lowered;
/// in particular a blank name gives the empty key.
pub fn normalize_name(name: &str) -> (r: String)
    ensures
        r@ == name_key(name@),
        all_ascii(trim_spec(name@)) ==> r@ == trim_spec(name@).map_values(
            |c: char| ascii_lower_spec(c),
        ),
{
    let chars = to_chars(name);
    let trimmed = trim_chars(&chars);
    let folded = nfkc_chars(&trimmed);
    let lowered = lowercase_chars(&folded);
    from_chars(&lowered)
}

// ── the author list of an entry input ─────────────────────────────────────

/// An author known by name alone.
pub open spec fn named_view(name: Seq<char>) -> AuthorView {
    AuthorView {
        name,
        given_name: None,
        family_name: None,
        name_original: None,
        original_script: None,
        reading_family: None,
        reading_given: None,
        email: None,
        orcid: None,
        is_organization: false,
        middle_name: None,
        suffix: None,
        name_particle: None,
        given_name_original: None,
        family_name_original: None,
        homepage_url: None,
        notes: None,
        identifiers: Seq::empty(),
    }
}

/// The authors an entry input stands for: its structured authors when given,
/// else one name-only author per display name.
pub open spec fn input_authors(input: EntryInput) -> Seq<AuthorView> {
    match input.authors {
        Some(v) => authors_view(v@),
        None => input.author_names@.map_values(|n: String| named_view(n@)),
    }
}

/// The authors to link when an entry is created or updated from `input`.
pub fn author_inputs_from(input: &EntryInput) -> (r: Vec<AuthorInput>)
    ensures
        authors_view(r@) == input_authors(*input),
{
    match &input.authors {
        Some(rich) => {
            let mut out: Vec<AuthorInput> = Vec::new();
            for i in 0..rich.len()
                invariant
                    out.len() == i,
                    forall|k: int| 0 <= k < i ==> (#[trigger] out@[k])@ == rich@[k]@,
            {
                out.push(rich[i].duplicate());
            }
            assert(authors_view(out@) =~= authors_view(rich@));
            out
        },
        None => {
            let names = &input.author_names;
            let mut out: Vec<AuthorInput> = Vec::new();
            for i in 0..names.len()
                invariant
                    out.len() == i,
                    forall|k: int| 0 <= k < i ==> (#[trigger] out@[k])@ == named_view(names@[k]@),
            {
                out.push(AuthorInput::named(names[i].clone()));
            }
            assert(authors_view(out@) =~= names@.map_values(|n: String| named_view(n@)));
            out
        },
    }
}

// ── optional text fields ──────────────────────────────────────────────────

/// An optional field as stored: trimmed, and absent when blank.
pub open spec fn trimmed_spec(o: Option<Seq<char>>) -> Option<Seq<char>> {
    match o {
        Some(s) => if trim_spec(s).len() > 0 {
            Some(trim_spec(s))
        } else {
            None
        },
        None => None,
    }
}

/// An optional field trimmed, `None` when it is absent or blank.
pub fn trimmed(o: &Option<String>) -> (r: Option<String>)
    ensures
        opt_view(r) == trimmed_spec(opt_view(*o)),
{
    match o {
        Some(s) => {
            let t = trim_chars(&to_chars(s.as_str()));
            if t.len() > 0 {
                Some(from_chars(&t))
            } else {
                None
            }
        },
        None => None,
    }
}

// ── author identifiers ────────────────────────────────────────────────────

/// An identifier ready to store: scheme and value trimmed, URL trimmed or absent.
#[derive(Debug)]
pub struct CleanIdentifier {
    pub scheme: String,
    pub value: String,
    pub url: Option<String>,
}

/// The checks an identifier passes before it is stored: scheme and value are
/// trimmed and must be non-blank (else the error `"scheme と value は必須"`); the URL
/// is trimmed and dropped when blank. The identifier syncs the author's ORCID
/// column exactly when its scheme is `orcid`.
pub fn clean_identifier(input: &AuthorIdentifierInput) -> (r: Result<CleanIdentifier, String>)
    ensures
        match r {
            Ok(c) => {
                &&& trim_spec(input.scheme@).len() > 0
                &&& trim_spec(input.value@).len() > 0
                &&& c.scheme@ == trim_spec(input.scheme@)
                &&& c.value@ == trim_spec(input.value@)
                &&& opt_view(c.url) == trimmed_spec(opt_view(input.url))
            },
            Err(e) => {
                &&& (trim_spec(input.scheme@).len() == 0 || trim_spec(input.value@).len() == 0)
                &&& e@ == "scheme と value は必須"@
            },
        },
{
    let scheme = trim_chars(&to_chars(input.scheme.as_str()));
    let value = trim_chars(&to_chars(input.value.as_str()));
    if scheme.len() == 0 || value.len() == 0 {
        return Err(String::from_str("scheme と value は必須"));
    }
    Ok(CleanIdentifier {
        scheme: from_chars(&scheme),
        value: from_chars(&value),
        url: trimmed(&input.url),
    })
}

// ── rewriting an author's identifiers ─────────────────────────────────────

/// An identifier as stored: scheme, value, URL.
pub open spec fn clean_view(c: CleanIdentifier) -> (Seq<char>, Seq<char>, Option<Seq<char>>) {
    (c.scheme@, c.value@, opt_view(c.url))
}

/// The identifiers an author update writes, among the first `m` given: scheme
/// and value trimmed, those with a blank scheme or value skipped, URLs trimmed
/// (absent when blank); in the order given.
pub open spec fn identifier_rows_upto(ids: Seq<(Seq<char>, Seq<char>, Option<Seq<char>>)>, m: int) -> Seq<
    (Seq<char>, Seq<char>, Option<Seq<char>>),
>
    decreases m,
{
    if m <= 0 {
        Seq::empty()
    } else {
        let prev = identifier_rows_upto(ids, m - 1);
        let (scheme, value, url) = ids[m - 1];
        if trim_spec(scheme).len() == 0 || trim_spec(value).len() == 0 {
            prev
        } else {
            prev.push((trim_spec(scheme), trim_spec(value), trimmed_spec(url)))
        }
    }
}

/// The identifier rows an update of author `input` writes (the author's
/// identifiers are replaced by these).
pub fn identifier_rows(input: &AuthorInput) -> (r: Vec<CleanIdentifier>)
    ensures
        r@.map_values(|c: CleanIdentifier| clean_view(c)) == identifier_rows_upto(
            input@.identifiers,
            input@.identifiers.len() as int,
        ),
{
    let ids = &input.identifiers;
    let ghost iv = idents_view(ids@);
    let mut out: Vec<CleanIdentifier> = Vec::new();
    let mut i: usize = 0;
    while i < ids.len()
        invariant
            i <= ids.len(),
            iv == idents_view(ids@),
            out@.map_values(|c: CleanIdentifier| clean_view(c)) == identifier_rows_upto(iv, i as int),
        decreases ids.len() - i,
    {
        let ghost before = out@;
        match clean_identifier(&ids[i]) {
            Ok(c) => {
                out.push(c);
                proof {
                    assert(out@.map_values(|c: CleanIdentifier| clean_view(c)) =~= before.map_values(
                        |c: CleanIdentifier| clean_view(c),
                    ).push(clean_view(out@[before.len() as int])));
                }
            },
            Err(_) => {},
        }
        proof {
            assert(iv[i as int] == (ids@[i as int].scheme@, ids@[i as int].value@, opt_view(ids@[i as int].url)));
            assert(out@.map_values(|c: CleanIdentifier| clean_view(c)) =~= identifier_rows_upto(iv, i + 1));
        }
        i = i + 1;
    }
    out
}

/// Some written row has the scheme `orcid`.
pub open spec fn writes_orcid(rows: Seq<(Seq<char>, Seq<char>, Option<Seq<char>>)>) -> bool {
    exists|k: int| 0 <= k < rows.len() && (#[trigger] rows[k]).0 == "orcid"@
}

/// The ORCID an update adds as an identifier of its own: the author's ORCID
/// column (trimmed, when not blank) when none of the written identifiers has the
/// scheme `orcid`; otherwise none.
pub fn implicit_orcid(input: &AuthorInput, rows: &Vec<CleanIdentifier>) -> (r: Option<String>)
    ensures
        opt_view(r) == if writes_orcid(rows@.map_values(|c: CleanIdentifier| clean_view(c))) {
            None
        } else {
            trimmed_spec(opt_view(input.orcid))
        },
{
    let ghost rv = rows@.map_values(|c: CleanIdentifier| clean_view(c));
    let mut i: usize = 0;
    while i < rows.len()
        invariant
            i <= rows.len(),
            rv == rows@.map_values(|c: CleanIdentifier| clean_view(c)),
            forall|k: int| 0 <= k < i ==> (#[trigger] rv[k]).0 != "orcid"@,
        decreases rows.len() - i,
    {
        if crate::text::is_lit(&to_chars(rows[i].scheme.as_str()), "orcid") {
            proof {
                assert(rv[i as int].0 == "orcid"@);
            }
            return None;
        }
        i = i + 1;
    }
    trimmed(&input.orcid)
}

// ── finding the author an input names ─────────────────────────────────────

/// One lookup for an existing author.
#[derive(Debug)]
pub enum AuthorLookup {
    /// By ORCID (the author's column or an `orcid` identifier).
    ByOrcid(String),
    /// By the matching key of the name (see [`normalize_name`]).
    ByName(String),
}

/// The view of a lookup: 0 for ORCID, 1 for name, and the key.
pub open spec fn lookup_view(l: AuthorLookup) -> (int, Seq<char>) {
    match l {
        AuthorLookup::ByOrcid(s) => (0, s@),
        AuthorLookup::ByName(s) => (1, s@),
    }
}

/// The lookups to try, in order, before an author is inserted as new: by the
/// trimmed ORCID when one is given, then by the name key when it is not empty.
pub open spec fn lookups_spec(input: AuthorView) -> Seq<(int, Seq<char>)> {
    let by_orcid: Seq<(int, Seq<char>)> = match trimmed_spec(input.orcid) {
        Some(o) => seq![(0, o)],
        None => Seq::empty(),
    };
    let key = name_key(input.name);
    by_orcid + if key.len() > 0 {
        seq![(1, key)]
    } else {
        Seq::<(int, Seq<char>)>::empty()
    }
}

/// The lookups for an existing author that `input` names, in the order they
/// are tried; the first that finds an author wins, and when none does the
/// author is inserted.
pub fn author_lookups(input: &AuthorInput) -> (r: Vec<AuthorLookup>)
    ensures
        r@.map_values(|l: AuthorLookup| lookup_view(l)) == lookups_spec(input@),
{
    let mut out: Vec<AuthorLookup> = Vec::new();
    match trimmed(&input.orcid) {
        Some(o) => out.push(AuthorLookup::ByOrcid(o)),
        None => {},
    }
    let ghost first = out@.map_values(|l: AuthorLookup| lookup_view(l));
    let key = normalize_name(input.name.as_str());
    if key.as_str().unicode_len() > 0 {
        out.push(AuthorLookup::ByName(key));
    }
    proof {
        assert(out@.map_values(|l: AuthorLookup| lookup_view(l)) =~= lookups_spec(input@));
    }
    out
}

/// The first of `names` whose matching key is `key`.
pub open spec fn first_name_match(names: Seq<Seq<char>>, key: Seq<char>, i: int) -> Option<int>
    decreases names.len() - i,
{
    if i < 0 || i >= names.len() {
        None
    } else if name_key(names[i]) == key {
        Some(i)
    } else {
        first_name_match(names, key, i + 1)
    }
}

/// The position of the first author name (in the order given) whose matching
/// key equals `key`.
pub fn find_by_normalized_name(names: &Vec<String>, key: &str) -> (r: Option<usize>)
    ensures
        match r {
            Some(i) => first_name_match(crate::models::strings_view(names@), key@, 0) == Some(i as int),
            None => first_name_match(crate::models::strings_view(names@), key@, 0) is None,
        },
{
    let ghost nv = crate::models::strings_view(names@);
    let k = to_chars(key);
    let mut i: usize = 0;
    while i < names.len()
        invariant
            i <= names.len(),
            nv == crate::models::strings_view(names@),
            k@ == key@,
            first_name_match(nv, key@, 0) == first_name_match(nv, key@, i as int),
        decreases names.len() - i,
    {
        let n = normalize_name(names[i].as_str());
        if crate::text::chars_eq(&to_chars(n.as_str()), &k) {
            return Some(i);
        }
        i = i + 1;
    }
    None
}

} // verus!
