use lumencite::entries::{
    canonical_arxiv, canonical_doi, canonical_isbn, duplicate_probe, entry_keys, has_pdf_attachment,
    sanitize_citation_key,
};
use lumencite::models::EntryInput;

#[test]
fn canonical_doi_strips_url_prefix_and_lowercases() {
    assert_eq!(canonical_doi("10.1234/Example").as_deref(), Some("10.1234/example"));
    assert_eq!(canonical_doi("https://doi.org/10.1234/Example").as_deref(), Some("10.1234/example"));
    assert_eq!(canonical_doi("http://dx.doi.org/10.1234/EX").as_deref(), Some("10.1234/ex"));
    assert_eq!(canonical_doi(" doi:10.1234/EX ").as_deref(), Some("10.1234/ex"));
    assert_eq!(canonical_doi("  "), None);
}

#[test]
fn canonical_arxiv_strips_version_prefix_and_lowercases() {
    assert_eq!(canonical_arxiv("arXiv:2301.00001v5").as_deref(), Some("2301.00001"));
    assert_eq!(canonical_arxiv("hep-th/9901001v2").as_deref(), Some("hep-th/9901001"));
    assert_eq!(canonical_arxiv(""), None);
}

#[test]
fn canonical_isbn_strips_hyphens_and_uppercases() {
    assert_eq!(canonical_isbn("978-0-387-31073-2").as_deref(), Some("9780387310732"));
    assert_eq!(canonical_isbn("0-306-40615-x").as_deref(), Some("030640615X"));
    assert_eq!(canonical_isbn(" - - "), None);
}

#[test]
fn sanitized_key_is_stable_when_sanitized_again() {
    let once = sanitize_citation_key("  Smith:2020 (draft) ").unwrap();
    assert_eq!(sanitize_citation_key(&once).as_deref(), Some(once.as_str()));
}

fn input() -> EntryInput {
    EntryInput {
        title: "A".to_string(),
        entry_type: "article".to_string(),
        year: None,
        doi: None,
        arxiv_id: None,
        isbn: None,
        url: None,
        abstract_: None,
        notes: None,
        citation_key: None,
        extra_fields: Vec::new(),
        authors: None,
        author_names: Vec::new(),
        author_ids: Vec::new(),
        tag_ids: Vec::new(),
    }
}

#[test]
fn an_entry_is_written_with_sanitised_key_and_canonical_ids() {
    let mut e = input();
    e.citation_key = Some(" smith 2020! ".to_string());
    e.doi = Some("https://doi.org/10.1234/ABC".to_string());
    e.arxiv_id = Some("arXiv:2301.00001v2".to_string());
    e.isbn = Some("978-0-387-31073-2".to_string());
    let k = entry_keys(&e);
    assert_eq!(k.citation_key.as_deref(), Some("smith2020"));
    assert_eq!(k.doi_canonical.as_deref(), Some("10.1234/abc"));
    assert_eq!(k.arxiv_canonical.as_deref(), Some("2301.00001"));
    assert_eq!(k.isbn_canonical.as_deref(), Some("9780387310732"));
    e.citation_key = Some("  ".to_string());
    e.doi = None;
    let k = entry_keys(&e);
    assert_eq!(k.citation_key, None);
    assert_eq!(k.doi_canonical, None);
}

#[test]
fn a_duplicate_search_needs_some_canonical_identifier() {
    assert!(duplicate_probe(&None, &None, &None).is_none());
    assert!(duplicate_probe(&Some("   ".to_string()), &None, &Some("--".to_string())).is_none());
    let p = duplicate_probe(&Some("10.1234/EXAMPLE".to_string()), &None, &None).unwrap();
    assert_eq!(p.0.as_deref(), Some("10.1234/example"));
    assert_eq!(p.1, None);
    assert_eq!(p.2, None);
}

#[test]
fn a_pdf_attachment_is_found_by_its_mime_type_in_any_case() {
    assert!(has_pdf_attachment(&vec!["text/plain".to_string(), "application/PDF".to_string()]));
    assert!(has_pdf_attachment(&vec!["application/x-pdf".to_string()]));
    assert!(!has_pdf_attachment(&vec!["text/plain".to_string(), "image/png".to_string()]));
    assert!(!has_pdf_attachment(&Vec::new()));
}
