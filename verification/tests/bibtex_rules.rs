use lumencite::bibtex::{dedup_key, map_entry_type, parse_authors, resolve_key_among, split_authors, suffix_letters, KeyRow};
use lumencite::bibtex::{export_text};
use lumencite::models::EntryDetail;

#[test]
fn parse_author_last_first() {
    let authors = parse_authors("Einstein, Albert and Bohr, Niels");
    let names: Vec<&str> = authors.iter().map(|a| a.name.as_str()).collect();
    assert_eq!(names, vec!["Albert Einstein", "Niels Bohr"]);
    assert_eq!(authors[0].family_name.as_deref(), Some("Einstein"));
    assert_eq!(authors[0].given_name.as_deref(), Some("Albert"));
    assert!(!authors[0].is_organization);
}

#[test]
fn parse_author_first_last() {
    let authors = parse_authors("Alan Turing and John McCarthy");
    let names: Vec<&str> = authors.iter().map(|a| a.name.as_str()).collect();
    assert_eq!(names, vec!["Alan Turing", "John McCarthy"]);
    assert!(authors[0].family_name.is_none());
    assert!(authors[0].given_name.is_none());
}

#[test]
fn parse_author_literal_organization() {
    let authors = parse_authors("{IEEE}");
    assert_eq!(authors.len(), 1);
    assert_eq!(authors[0].name, "IEEE");
    assert!(authors[0].is_organization);
    assert!(authors[0].family_name.is_none());
    assert!(authors[0].given_name.is_none());
}

#[test]
fn parse_author_mixed_organization_and_person() {
    let authors = parse_authors("{IEEE} and Alan Turing and {ACM}");
    assert_eq!(authors.len(), 3);
    assert!(authors[0].is_organization && authors[0].name == "IEEE");
    assert!(!authors[1].is_organization && authors[1].name == "Alan Turing");
    assert!(authors[2].is_organization && authors[2].name == "ACM");
}

#[test]
fn parse_author_literal_with_inner_and_is_one_token() {
    let authors = parse_authors("{Smith and Jones Inc}");
    assert_eq!(authors.len(), 1);
    assert!(authors[0].is_organization);
    assert_eq!(authors[0].name, "Smith and Jones Inc");
}

#[test]
fn parse_author_empty_literal_is_dropped() {
    let authors = parse_authors("{} and Real Person");
    assert_eq!(authors.len(), 1);
    assert_eq!(authors[0].name, "Real Person");
}

#[test]
fn map_entry_type_variants() {
    assert_eq!(map_entry_type("article"), "article");
    assert_eq!(map_entry_type("ARTICLE"), "article");
    assert_eq!(map_entry_type("inproceedings"), "inproceedings");
    assert_eq!(map_entry_type("conference"), "inproceedings");
    assert_eq!(map_entry_type("phdthesis"), "thesis");
    assert_eq!(map_entry_type("online"), "webpage");
    assert_eq!(map_entry_type("incollection"), "bookSection");
    assert_eq!(map_entry_type("inbook"), "bookSection");
    assert_eq!(map_entry_type("techreport"), "report");
    assert_eq!(map_entry_type("report"), "report");
    assert_eq!(map_entry_type("unpublished"), "manuscript");
    assert_eq!(map_entry_type("patent"), "patent");
    assert_eq!(map_entry_type("dataset"), "dataset");
    assert_eq!(map_entry_type("software"), "computerProgram");
    assert_eq!(map_entry_type("unknowntype"), "misc");
}

#[test]
fn suffix_letters_spreadsheet_style() {
    assert_eq!(suffix_letters(1), "a");
    assert_eq!(suffix_letters(2), "b");
    assert_eq!(suffix_letters(26), "z");
    assert_eq!(suffix_letters(27), "aa");
    assert_eq!(suffix_letters(28), "ab");
}

#[test]
fn dedup_key_appends_suffixes() {
    let mut used: Vec<String> = Vec::new();
    assert_eq!(dedup_key("smith2020", &mut used), "smith2020");
    assert_eq!(dedup_key("smith2020", &mut used), "smith2020a");
    assert_eq!(dedup_key("smith2020", &mut used), "smith2020b");
    assert_eq!(dedup_key("jones2021", &mut used), "jones2021");
}

#[test]
fn split_parts_join_back_to_the_list() {
    let s = "Smith, A. and {Barnes and Noble Inc} and Doe, J.";
    let parts: Vec<String> = split_authors(&s.chars().collect())
        .iter()
        .map(|p| p.iter().collect())
        .collect();
    assert_eq!(parts, vec!["Smith, A.", "{Barnes and Noble Inc}", "Doe, J."]);
    assert_eq!(parts.join(" and "), s);
}

fn entry(id: i64, title: &str, author: &str, key: Option<&str>) -> EntryDetail {
    EntryDetail {
        id,
        title: title.to_string(),
        entry_type: "article".to_string(),
        year: Some(2020),
        doi: None,
        arxiv_id: None,
        isbn: None,
        url: None,
        abstract_: None,
        notes: None,
        citation_key: key.map(|s| s.to_string()),
        author_names: vec![author.to_string()],
        extra_fields: Vec::new(),
    }
}

fn row(e: &EntryDetail) -> KeyRow {
    KeyRow {
        id: e.id,
        title: e.title.clone(),
        year: e.year,
        citation_key: e.citation_key.clone(),
        first_author: e.author_names.first().cloned(),
    }
}

#[test]
fn the_resolved_key_heads_the_exported_block() {
    let entries = vec![
        entry(1, "Alpha", "Ann Smith", None),
        entry(2, "Beta", "Bob Smith", None),
        entry(3, "Gamma", "Cy Jones", Some("pinned-key")),
    ];
    let rows: Vec<KeyRow> = entries.iter().map(row).collect();
    let text = export_text(&entries);
    let blocks: Vec<&str> = text.split("\n@").collect();
    assert_eq!(blocks.len(), 3);
    let k1 = resolve_key_among(&rows, 1).unwrap();
    let k2 = resolve_key_among(&rows, 2).unwrap();
    let k3 = resolve_key_among(&rows, 3).unwrap();
    assert_ne!(k1, k2);
    assert_eq!(k3, "pinned-key");
    assert!(text.starts_with(&format!("@article{{{},", k1)));
    assert!(blocks[1].starts_with(&format!("article{{{},", k2)));
    assert!(blocks[2].starts_with(&format!("article{{{},", k3)));
    assert!(resolve_key_among(&rows, 9).is_none());
}
