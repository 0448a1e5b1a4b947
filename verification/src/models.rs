//! Plain data that the library's functions take and give: author and entry inputs,
//! and the part of an entry that BibTeX export reads.

use vstd::prelude::*;

verus! {

/// The view of an optional string.
pub open spec fn opt_view(o: Option<String>) -> Option<Seq<char>> {
    match o {
        Some(s) => Some(s@),
        None => None,
    }
}

/// One author as given to entry creation (a person or an organisation).
#[derive(Debug)]
pub struct AuthorInput {
    /// Display name ("First Last" for persons, the literal for organisations).
    pub name: String,
    pub given_name: Option<String>,
    pub family_name: Option<String>,
    pub name_original: Option<String>,
    pub original_script: Option<String>,
    pub reading_family: Option<String>,
    pub reading_given: Option<String>,
    pub email: Option<String>,
    pub orcid: Option<String>,
    /// The author is an organisation (a BibTeX `{...}` literal).
    pub is_organization: bool,
    pub middle_name: Option<String>,
    pub suffix: Option<String>,
    pub name_particle: Option<String>,
    pub given_name_original: Option<String>,
    pub family_name_original: Option<String>,
    pub homepage_url: Option<String>,
    pub notes: Option<String>,
    /// Identifiers (ORCID, ...) as given.
    pub identifiers: Vec<AuthorIdentifierInput>,
}

/// The mathematical value of an [`AuthorInput`].
pub struct AuthorView {
    pub name: Seq<char>,
    pub given_name: Option<Seq<char>>,
    pub family_name: Option<Seq<char>>,
    pub name_original: Option<Seq<char>>,
    pub original_script: Option<Seq<char>>,
    pub reading_family: Option<Seq<char>>,
    pub reading_given: Option<Seq<char>>,
    pub email: Option<Seq<char>>,
    pub orcid: Option<Seq<char>>,
    pub is_organization: bool,
    pub middle_name: Option<Seq<char>>,
    pub suffix: Option<Seq<char>>,
    pub name_particle: Option<Seq<char>>,
    pub given_name_original: Option<Seq<char>>,
    pub family_name_original: Option<Seq<char>>,
    pub homepage_url: Option<Seq<char>>,
    pub notes: Option<Seq<char>>,
    pub identifiers: Seq<(Seq<char>, Seq<char>, Option<Seq<char>>)>,
}

impl View for AuthorInput {
    type V = AuthorView;

    open spec fn view(&self) -> AuthorView {
        AuthorView {
            name: self.name@,
            given_name: opt_view(self.given_name),
            family_name: opt_view(self.family_name),
            name_original: opt_view(self.name_original),
            original_script: opt_view(self.original_script),
            reading_family: opt_view(self.reading_family),
            reading_given: opt_view(self.reading_given),
            email: opt_view(self.email),
            orcid: opt_view(self.orcid),
            is_organization: self.is_organization,
            middle_name: opt_view(self.middle_name),
            suffix: opt_view(self.suffix),
            name_particle: opt_view(self.name_particle),
            given_name_original: opt_view(self.given_name_original),
            family_name_original: opt_view(self.family_name_original),
            homepage_url: opt_view(self.homepage_url),
            notes: opt_view(self.notes),
            identifiers: idents_view(self.identifiers@),
        }
    }
}

/// The views of identifiers: scheme, value and URL.
pub open spec fn idents_view(v: Seq<AuthorIdentifierInput>) -> Seq<(Seq<char>, Seq<char>, Option<Seq<char>>)> {
    v.map_values(|i: AuthorIdentifierInput| (i.scheme@, i.value@, opt_view(i.url)))
}

impl AuthorInput {
    /// An author known only by name: no name parts, identifiers or organisation flag.
    pub fn named(name: String) -> (a: AuthorInput)
        ensures
            a@ == (AuthorView {
                name: name@,
                given_name: None,
                family_name: None,
                name_original: None,
                original_script: None,
                reading_family: None,
                reading_given: None,
                email: None,
                orcid: None,
                is_organization: false,
                middle_name: None,
                suffix: None,
                name_particle: None,
                given_name_original: None,
                family_name_original: None,
                homepage_url: None,
                notes: None,
                identifiers: Seq::empty(),
            }),
    {
        let a = AuthorInput {
            name,
            given_name: None,
            family_name: None,
            name_original: None,
            original_script: None,
            reading_family: None,
            reading_given: None,
            email: None,
            orcid: None,
            is_organization: false,
            middle_name: None,
            suffix: None,
            name_particle: None,
            given_name_original: None,
            family_name_original: None,
            homepage_url: None,
            notes: None,
            identifiers: Vec::new(),
        };
        proof {
            assert(idents_view(a.identifiers@) =~= Seq::empty());
        }
        a
    }
}

/// The views of a list of authors.
pub open spec fn authors_view(v: Seq<AuthorInput>) -> Seq<AuthorView> {
    v.map_values(|a: AuthorInput| a@)
}

/// The views of a list of strings.
pub open spec fn strings_view(v: Seq<String>) -> Seq<Seq<char>> {
    v.map_values(|s: String| s@)
}

/// The views of a list of key/value string pairs.
pub open spec fn pairs_view(v: Seq<(String, String)>) -> Seq<(Seq<char>, Seq<char>)> {
    v.map_values(|p: (String, String)| (p.0@, p.1@))
}

/// Input for creating or updating an entry.
#[derive(Debug)]
pub struct EntryInput {
    pub title: String,
    pub entry_type: String,
    pub year: Option<i64>,
    pub doi: Option<String>,
    pub arxiv_id: Option<String>,
    pub isbn: Option<String>,
    pub url: Option<String>,
    pub abstract_: Option<String>,
    pub notes: Option<String>,
    /// Pinned citation key (`None` = generated).
    pub citation_key: Option<String>,
    /// Type-specific fields (journal, booktitle, ...), each key once.
    pub extra_fields: Vec<(String, String)>,
    /// Structured authors; when absent, `author_names` are used.
    pub authors: Option<Vec<AuthorInput>>,
    pub author_names: Vec<String>,
    pub author_ids: Vec<i64>,
    pub tag_ids: Vec<i64>,
}

/// The part of a stored entry that BibTeX export reads.
#[derive(Debug)]
pub struct EntryDetail {
    pub id: i64,
    pub title: String,
    pub entry_type: String,
    pub year: Option<i64>,
    pub doi: Option<String>,
    pub arxiv_id: Option<String>,
    pub isbn: Option<String>,
    pub url: Option<String>,
    pub abstract_: Option<String>,
    pub notes: Option<String>,
    pub citation_key: Option<String>,
    /// Author display names in position order.
    pub author_names: Vec<String>,
    /// Type-specific fields, each key once.
    pub extra_fields: Vec<(String, String)>,
}

} // verus!

verus! {

/// A copy of an optional string.
pub fn clone_opt(o: &Option<String>) -> (r: Option<String>)
    ensures
        opt_view(r) == opt_view(*o),
{
    match o {
        Some(s) => Some(s.clone()),
        None => None,
    }
}

impl AuthorInput {
    /// A field-by-field copy.
    pub fn duplicate(&self) -> (r: AuthorInput)
        ensures
            r@ == self@,
    {
        AuthorInput {
            name: self.name.clone(),
            given_name: clone_opt(&self.given_name),
            family_name: clone_opt(&self.family_name),
            name_original: clone_opt(&self.name_original),
            original_script: clone_opt(&self.original_script),
            reading_family: clone_opt(&self.reading_family),
            reading_given: clone_opt(&self.reading_given),
            email: clone_opt(&self.email),
            orcid: clone_opt(&self.orcid),
            is_organization: self.is_organization,
            middle_name: clone_opt(&self.middle_name),
            suffix: clone_opt(&self.suffix),
            name_particle: clone_opt(&self.name_particle),
            given_name_original: clone_opt(&self.given_name_original),
            family_name_original: clone_opt(&self.family_name_original),
            homepage_url: clone_opt(&self.homepage_url),
            notes: clone_opt(&self.notes),
            identifiers: clone_identifiers(&self.identifiers),
        }
    }
}

/// A copy of a list of identifiers.
pub fn clone_identifiers(v: &Vec<AuthorIdentifierInput>) -> (r: Vec<AuthorIdentifierInput>)
    ensures
        idents_view(r@) == idents_view(v@),
{
    let mut out: Vec<AuthorIdentifierInput> = Vec::new();
    let mut i: usize = 0;
    while i < v.len()
        invariant
            i <= v.len(),
            idents_view(out@) == idents_view(v@.take(i as int)),
        decreases v.len() - i,
    {
        let x = &v[i];
        let ghost before = out@;
        out.push(AuthorIdentifierInput { scheme: x.scheme.clone(), value: x.value.clone(), url: clone_opt(&x.url) });
        proof {
            assert(v@.take(i + 1) =~= v@.take(i as int).push(v@[i as int]));
            assert(idents_view(out@) =~= idents_view(before).push((v@[i as int].scheme@, v@[i as int].value@, opt_view(v@[i as int].url))));
            assert(idents_view(v@.take(i + 1)) =~= idents_view(v@.take(i as int)).push((v@[i as int].scheme@, v@[i as int].value@, opt_view(v@[i as int].url))));
        }
        i = i + 1;
    }
    proof {
        assert(v@.take(v.len() as int) =~= v@);
    }
    out
}

/// One identifier of an author (scheme such as `orcid`, its value, an optional URL).
#[derive(Debug)]
pub struct AuthorIdentifierInput {
    pub scheme: String,
    pub value: String,
    pub url: Option<String>,
}

} // verus!
