use lumencite::bibtex::{
    bibtex_text_is_safe, entry_to_bibtex, export_text, pinned_or_generated_key, plan_import, plan_records,
    BibRecord,
};
use lumencite::models::EntryDetail;

fn detail(id: i64, title: &str, year: Option<i64>, authors: &[&str], key: Option<&str>) -> EntryDetail {
    EntryDetail {
        id,
        title: title.to_string(),
        entry_type: "article".to_string(),
        year,
        doi: None,
        arxiv_id: None,
        isbn: None,
        url: None,
        abstract_: None,
        notes: None,
        citation_key: key.map(|s| s.to_string()),
        author_names: authors.iter().map(|s| s.to_string()).collect(),
        extra_fields: vec![("journal".to_string(), "NeurIPS".to_string())],
    }
}

#[test]
fn import_reads_entries_and_makes_keys_unique() {
    let bib = "@article{vaswani2017,\n  title = {Attention Is All You Need},\n  author = {Vaswani, Ashish and Shazeer, Noam},\n  year = {2017},\n  journal = {NeurIPS}\n}\n\n@book{vaswani2017,\n  title = {Second},\n  year = {2018}\n}\n";
    let items = plan_import(bib, vec!["vaswani2017".to_string()]).unwrap();
    assert_eq!(items.len(), 2);
    assert_eq!(items[0].source_key, "vaswani2017");
    let first = items[0].input.as_ref().unwrap();
    assert_eq!(first.title, "Attention Is All You Need");
    assert_eq!(first.year, Some(2017));
    assert_eq!(first.entry_type, "article");
    assert_eq!(first.citation_key.as_deref(), Some("vaswani2017a"));
    let second = items[1].input.as_ref().unwrap();
    assert_eq!(second.entry_type, "book");
    assert_eq!(second.citation_key.as_deref(), Some("vaswani2017b"));
}

#[test]
fn import_rejects_a_file_that_does_not_parse() {
    assert!(plan_import("@article{broken, title = {x}", Vec::new()).is_err());
}

#[test]
fn export_writes_one_record_per_entry() {
    let e = detail(1, "Attention Is All You Need", Some(2017), &["Ashish Vaswani"], None);
    let text = entry_to_bibtex(&e, "vaswani2017");
    assert!(text.starts_with("@article{vaswani2017,\n"));
    assert!(text.contains("title"));
    assert!(text.contains("Attention Is All You Need"));
    assert!(text.contains("NeurIPS"));
    assert!(text.ends_with("\n}"));
}

#[test]
fn export_keys_stay_unique_across_entries() {
    let a = detail(1, "Alpha", Some(2020), &["Jane Smith"], None);
    let b = detail(2, "Beta", Some(2020), &["Jane Smith"], None);
    let out = export_text(&vec![a, b]);
    assert!(out.contains("@article{smith2020,"));
    assert!(out.contains("@article{smith2020a,"));
}

#[test]
fn an_entry_outside_the_sync_shows_its_pinned_or_generated_key() {
    let pinned = detail(1, "Deep Learning", Some(2016), &["Ian Goodfellow"], Some("dl2016"));
    assert_eq!(pinned_or_generated_key(&pinned), "dl2016");
    let plain = detail(2, "Deep Learning", Some(2016), &["Ian Goodfellow"], None);
    assert_eq!(pinned_or_generated_key(&plain), "goodfellow2016");
}

#[test]
fn texts_the_parser_cannot_read_safely_are_refused() {
    assert!(!bibtex_text_is_safe("@comment{"));
    assert!(!bibtex_text_is_safe("@misc{k, title = {"));
    assert!(!bibtex_text_is_safe("@misc{k, title = \""));
    assert!(!bibtex_text_is_safe("@comment{é"));
    assert!(!bibtex_text_is_safe("@string{a = a}\n"));
    assert!(!bibtex_text_is_safe("@string{a = b}\n@string{b = a}\n"));
    assert!(bibtex_text_is_safe("@ String (a = \"x\")\n"));
    assert!(bibtex_text_is_safe("@misc{k, title = {T}}\n日本"));
    assert!(bibtex_text_is_safe(""));
    assert!(bibtex_text_is_safe("@misc{k, title = {Café}}\n"));
    assert!(plan_import("@comment{", Vec::new()).is_err());
    assert!(plan_import("@comment{é", Vec::new()).is_err());
    assert!(plan_import("@string{a = a}\n@misc{k, title = a}\n", Vec::new()).is_err());
}

#[test]
fn records_are_planned_in_order_with_unique_keys() {
    let rec = |ty: &str, key: &str, title: Option<&str>| BibRecord {
        entry_type: ty.to_string(),
        citation_key: key.to_string(),
        tags: match title {
            Some(t) => vec![("title".to_string(), t.to_string()), ("year".to_string(), "2020".to_string())],
            None => vec![("year".to_string(), "2020".to_string())],
        },
    };
    let records = vec![
        rec("Article", "smith2020", Some("One")),
        rec("misc", "no-title", None),
        rec("book", "smith2020", Some("Two")),
    ];
    let items = plan_records(records, vec!["smith2020".to_string()]).unwrap();
    assert_eq!(items.len(), 3);
    assert_eq!(items[0].source_key, "smith2020");
    let first = items[0].input.as_ref().unwrap();
    assert_eq!(first.entry_type, "article");
    assert_eq!(first.title, "One");
    assert_eq!(first.citation_key.as_deref(), Some("smith2020a"));
    assert!(items[1].input.is_none());
    assert_eq!(items[2].input.as_ref().unwrap().citation_key.as_deref(), Some("smith2020b"));
}

#[test]
fn string_variables_are_expanded_on_import() {
    let items = plan_import("@string{jt = \"Journal\"}\n@string{t = jt # \" of Tests\"}\n@misc{k, title = t}\n", Vec::new()).unwrap();
    assert_eq!(items.len(), 1);
    assert_eq!(items[0].input.as_ref().unwrap().title, "Journal of Tests");
    let items = plan_import("@misc{k, title = {T}}\n% 日本", Vec::new()).unwrap();
    assert_eq!(items[0].input.as_ref().unwrap().title, "T");
}
