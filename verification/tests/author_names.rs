use lumencite::authors::{
    author_lookups, clean_identifier, find_by_normalized_name, identifier_rows, implicit_orcid,
    normalize_name, trimmed, AuthorLookup,
};
use lumencite::models::{AuthorIdentifierInput, AuthorInput};

#[test]
fn trims_whitespace() {
    assert_eq!(normalize_name("  Seki  "), "seki");
}

#[test]
fn lowercases_ascii() {
    assert_eq!(normalize_name("Motoki Seki"), "motoki seki");
}

#[test]
fn nfkc_folds_fullwidth_to_halfwidth() {
    assert_eq!(normalize_name("ＳＥＫＩ"), "seki");
}

#[test]
fn nfkc_composes_decomposed_chars() {
    let decomposed = "Cafe\u{0301}";
    let composed = "Café";
    assert_eq!(normalize_name(decomposed), normalize_name(composed));
}

#[test]
fn preserves_cjk_ideographs() {
    assert_eq!(normalize_name("関 元樹"), "関 元樹");
}

#[test]
fn empty_input_yields_empty() {
    assert_eq!(normalize_name(""), "");
    assert_eq!(normalize_name("   "), "");
}

#[test]
fn trimmed_drops_blank_and_trims() {
    assert_eq!(trimmed(&Some("  0000-0001  ".to_string())).as_deref(), Some("0000-0001"));
    assert_eq!(trimmed(&Some("   ".to_string())), None);
    assert_eq!(trimmed(&None), None);
}

#[test]
fn identifier_requires_scheme_and_value() {
    let bad = AuthorIdentifierInput {
        scheme: "  ".to_string(),
        value: "x".to_string(),
        url: None,
    };
    assert_eq!(clean_identifier(&bad).unwrap_err(), "scheme と value は必須");
    let good = AuthorIdentifierInput {
        scheme: " orcid ".to_string(),
        value: " 0000-0002 ".to_string(),
        url: Some("  ".to_string()),
    };
    let c = clean_identifier(&good).unwrap();
    assert_eq!(c.scheme, "orcid");
    assert_eq!(c.value, "0000-0002");
    assert!(c.url.is_none());
}

fn ident(scheme: &str, value: &str, url: Option<&str>) -> AuthorIdentifierInput {
    AuthorIdentifierInput {
        scheme: scheme.to_string(),
        value: value.to_string(),
        url: url.map(|u| u.to_string()),
    }
}

#[test]
fn an_update_writes_trimmed_identifiers_and_skips_blank_ones() {
    let mut a = AuthorInput::named("Ada Lovelace".to_string());
    a.identifiers = vec![
        ident(" scopus ", " 123 ", Some("  ")),
        ident("", "x", None),
        ident("isni", "   ", None),
        ident("orcid", "0000-0001", Some(" https://orcid.org/0000-0001 ")),
    ];
    let rows = identifier_rows(&a);
    let got: Vec<(String, String, Option<String>)> =
        rows.iter().map(|r| (r.scheme.clone(), r.value.clone(), r.url.clone())).collect();
    assert_eq!(
        got,
        vec![
            ("scopus".to_string(), "123".to_string(), None),
            ("orcid".to_string(), "0000-0001".to_string(), Some("https://orcid.org/0000-0001".to_string())),
        ]
    );
    a.orcid = Some("0000-0009".to_string());
    assert_eq!(implicit_orcid(&a, &rows), None);
}

#[test]
fn the_orcid_column_is_added_when_no_identifier_carries_it() {
    let mut a = AuthorInput::named("Ada Lovelace".to_string());
    a.orcid = Some("  0000-0002  ".to_string());
    a.identifiers = vec![ident("scopus", "1", None)];
    let rows = identifier_rows(&a);
    assert_eq!(implicit_orcid(&a, &rows).as_deref(), Some("0000-0002"));
    a.orcid = Some("   ".to_string());
    assert_eq!(implicit_orcid(&a, &rows), None);
}

#[test]
fn an_author_is_looked_up_by_orcid_then_by_name() {
    let mut a = AuthorInput::named("  Motoki SEKI ".to_string());
    a.orcid = Some(" 0000-0003 ".to_string());
    let l = author_lookups(&a);
    assert_eq!(l.len(), 2);
    assert!(matches!(&l[0], AuthorLookup::ByOrcid(o) if o == "0000-0003"));
    assert!(matches!(&l[1], AuthorLookup::ByName(n) if n == "motoki seki"));
    let blank = AuthorInput::named("   ".to_string());
    assert!(author_lookups(&blank).is_empty());
}

#[test]
fn the_first_name_with_the_key_is_found() {
    let names = vec!["Alan Turing".to_string(), " motoki seki".to_string(), "MOTOKI SEKI".to_string()];
    assert_eq!(find_by_normalized_name(&names, "motoki seki"), Some(1));
    assert_eq!(find_by_normalized_name(&names, "grace hopper"), None);
}

#[test]
fn an_entry_links_its_structured_authors_or_else_its_names() {
    let mut e = lumencite::models::EntryInput {
        title: "T".to_string(),
        entry_type: "article".to_string(),
        year: None,
        doi: None,
        arxiv_id: None,
        isbn: None,
        url: None,
        abstract_: None,
        notes: None,
        citation_key: None,
        extra_fields: Vec::new(),
        authors: None,
        author_names: vec!["Alan Turing".to_string(), "Grace Hopper".to_string()],
        author_ids: Vec::new(),
        tag_ids: Vec::new(),
    };
    let names: Vec<String> = lumencite::authors::author_inputs_from(&e).into_iter().map(|a| a.name).collect();
    assert_eq!(names, vec!["Alan Turing", "Grace Hopper"]);
    let mut ada = AuthorInput::named("Ada Lovelace".to_string());
    ada.orcid = Some("0000-0001".to_string());
    e.authors = Some(vec![ada]);
    let linked = lumencite::authors::author_inputs_from(&e);
    assert_eq!(linked.len(), 1);
    assert_eq!(linked[0].name, "Ada Lovelace");
    assert_eq!(linked[0].orcid.as_deref(), Some("0000-0001"));
}
