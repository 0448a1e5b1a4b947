use lumencite::storage::{ExtractionStatus, NewDocumentVersion};
use lumencite::fulltext::{
    build_match_expr, decide_lcir, decide_pdf_extract, fulltext_search_query, fulltext_source_key,
    lcir_kept_rows, node_search_query, pages_all_blank, rows_to_index, NodeFtsInput, pages_to_store, recorded_source, FulltextSource, LcirWrite,
    PdfExtractWrite,
};
use lumencite::query::{entry_list_query, entry_search_query, EntryFilter, SqlArg, TagMatch};
use lumencite::text::split_whitespace;

fn texts(args: &[SqlArg]) -> Vec<String> {
    args.iter()
        .map(|a| match a {
            SqlArg::Int(i) => format!("#{i}"),
            SqlArg::Text(s) => s.clone(),
        })
        .collect()
}

#[test]
fn words_are_split_on_whitespace() {
    assert_eq!(split_whitespace("  neural\tnets \n now "), vec!["neural", "nets", "now"]);
    assert!(split_whitespace("   ").is_empty());
}

#[test]
fn the_entry_list_applies_scope_filter_and_order() {
    let mut f = EntryFilter::unrestricted();
    f.entry_types = vec!["article".to_string(), "book".to_string()];
    f.year_min = Some(2000);
    f.starred = Some(true);
    f.tag_ids = vec![3, 4];
    f.tag_match = TagMatch::And;
    let q = entry_list_query(Some(9), None, None, &f);
    assert_eq!(
        q.sql,
        "SELECT e.id FROM entries e WHERE e.deleted_at IS NULL \
AND e.id IN (SELECT entry_id FROM entry_collections WHERE collection_id = ?) \
AND e.entry_type IN (?, ?) AND e.year >= ? AND e.starred = 1 \
AND e.id IN (SELECT entry_id FROM entry_tags WHERE tag_id = ?) \
AND e.id IN (SELECT entry_id FROM entry_tags WHERE tag_id = ?) ORDER BY e.created_at DESC"
    );
    assert_eq!(texts(&q.args), vec!["#9", "article", "book", "#2000", "#3", "#4"]);
}

#[test]
fn the_trash_view_orders_by_deletion() {
    let q = entry_list_query(None, None, Some("trash"), &EntryFilter::unrestricted());
    assert_eq!(
        q.sql,
        "SELECT e.id FROM entries e WHERE e.deleted_at IS NOT NULL ORDER BY e.deleted_at DESC"
    );
    let q = entry_list_query(None, None, Some("unfiled"), &EntryFilter::unrestricted());
    assert!(q.sql.contains("NOT EXISTS (SELECT 1 FROM entry_collections ec WHERE ec.entry_id = e.id)"));
}

#[test]
fn any_tag_filter_uses_one_in_list() {
    let mut f = EntryFilter::unrestricted();
    f.tag_ids = vec![1, 2];
    f.has_attachment = Some(false);
    let q = entry_list_query(None, Some(5), None, &f);
    assert!(q.sql.contains("AND NOT EXISTS (SELECT 1 FROM attachments a WHERE a.entry_id = e.id AND a.mime_type LIKE '%pdf%')"));
    assert!(q.sql.contains("tag_id IN (?, ?))"));
    assert_eq!(texts(&q.args), vec!["#5", "#1", "#2"]);
}

#[test]
fn long_words_use_the_trigram_index() {
    let q = entry_search_query("neural \"nets\"", None, None, None, &EntryFilter::unrestricted());
    assert_eq!(
        q.sql,
        "SELECT e.id FROM entries e JOIN entries_fts f ON f.rowid = e.id WHERE entries_fts MATCH ? \
AND e.deleted_at IS NULL ORDER BY bm25(entries_fts)"
    );
    assert_eq!(texts(&q.args), vec!["\"neural\" \"nets\""]);
}

#[test]
fn a_short_word_falls_back_to_like() {
    let q = entry_search_query("ai 50%", None, Some(2), None, &EntryFilter::unrestricted());
    assert!(q.sql.starts_with("SELECT e.id FROM entries e JOIN entries_fts f ON f.rowid = e.id WHERE 1 = 1 AND e.deleted_at IS NULL AND (f.title LIKE ? ESCAPE '\\'"));
    assert!(q.sql.ends_with("AND e.id IN (SELECT entry_id FROM entry_tags WHERE tag_id = ?) ORDER BY e.created_at DESC"));
    assert_eq!(q.args.len(), 11);
    assert_eq!(texts(&q.args)[5], "%50\\%%");
    assert_eq!(texts(&q.args)[10], "#2");
}

#[test]
fn an_empty_query_lists_the_selection() {
    let q = entry_search_query("   ", None, None, Some("starred"), &EntryFilter::unrestricted());
    assert_eq!(
        q.sql,
        "SELECT e.id FROM entries e WHERE e.deleted_at IS NULL AND e.starred = 1 ORDER BY e.created_at DESC"
    );
}

#[test]
fn fulltext_search_statement() {
    assert!(fulltext_search_query("  ", None, None, None).is_none());
    let q = fulltext_search_query("quantum field", Some(4), None, Some("trash")).unwrap();
    assert!(q.sql.contains("snippet(fulltext, 0, '⟨', '⟩', '…', 12) AS snippet"));
    assert!(q.sql.contains("fulltext MATCH ? AND a.entry_id IN (SELECT id FROM entries WHERE deleted_at IS NOT NULL)"));
    assert!(q.sql.ends_with("collection_id = ?) ORDER BY bm25(fulltext)"));
    assert_eq!(texts(&q.args), vec!["\"quantum\" \"field\"", "#4"]);
    let q = fulltext_search_query("an ox", None, None, None).unwrap();
    assert!(q.sql.contains("f.content LIKE ? ESCAPE '\\' AND f.content LIKE ? ESCAPE '\\'"));
    assert!(q.sql.ends_with(" ORDER BY f.attachment_id, f.page"));
    assert_eq!(texts(&q.args), vec!["%an%", "%ox%"]);
}

#[test]
fn match_expression_drops_quotes() {
    let toks = vec!["a\"b".to_string(), "c".to_string()];
    assert_eq!(build_match_expr(&toks), "\"ab\" \"c\"");
}

#[test]
fn source_records_round_trip() {
    assert_eq!(fulltext_source_key(42), "fulltext.source.42");
    assert_eq!(FulltextSource::parse(FulltextSource::Ocr.as_str()), Some(FulltextSource::Ocr));
    assert_eq!(FulltextSource::parse(FulltextSource::Lcir.as_str()), Some(FulltextSource::Lcir));
    assert_eq!(FulltextSource::parse("pdf"), None);
    assert_eq!(recorded_source(Some("ocr")), Some(FulltextSource::Ocr));
    assert_eq!(recorded_source(None), None);
}

#[test]
fn extraction_yields_to_protected_and_keeps_index_on_empty_text() {
    assert_eq!(decide_pdf_extract(Some(FulltextSource::Ocr), true, false, 0), Some(PdfExtractWrite::SkippedProtected));
    assert_eq!(decide_pdf_extract(Some(FulltextSource::Lcir), false, false, 0), Some(PdfExtractWrite::SkippedProtected));
    assert_eq!(decide_pdf_extract(Some(FulltextSource::Lcir), true, false, 0), None);
    assert_eq!(decide_pdf_extract(None, false, true, 500), Some(PdfExtractWrite::SkippedEmptyExtract));
    assert_eq!(decide_pdf_extract(None, false, true, 0), None);
}

#[test]
fn ir_writer_protects_ocr_and_unrecorded_indexes() {
    assert_eq!(decide_lcir(Some(FulltextSource::Ocr), false, 0), Some(LcirWrite::SkippedOcr));
    assert_eq!(decide_lcir(None, true, 3), Some(LcirWrite::SkippedUnrecorded));
    assert_eq!(decide_lcir(None, false, 3), None);
    assert_eq!(decide_lcir(Some(FulltextSource::Lcir), true, 3), None);
}

#[test]
fn blank_pages_are_not_stored_and_uncovered_rows_are_kept() {
    let pages = vec![(1, "text".to_string()), (2, "  \n".to_string()), (3, "more".to_string())];
    let stored: Vec<i64> = pages_to_store(&pages).iter().map(|p| p.0).collect();
    assert_eq!(stored, vec![1, 3]);
    assert!(!pages_all_blank(&pages));
    assert!(pages_all_blank(&vec![(1, " ".to_string())]));
    let existing = vec![(2, "old two".to_string()), (5, "old five".to_string())];
    let kept = lcir_kept_rows(&pages, &existing);
    assert_eq!(kept, vec![(5, "old five".to_string())]);
}

#[test]
fn the_block_search_names_node_page_and_kind() {
    assert!(node_search_query(" \t ", None, None, None).is_none());
    let q = node_search_query("operator norm", None, Some(9), None).unwrap();
    assert!(q.sql.starts_with("SELECT dnf.node_id AS node_id, dnf.attachment_id AS attachment_id, dnf.page AS page, dnf.node_kind AS node_kind, snippet(document_nodes_fts"));
    assert!(q.sql.contains("document_nodes_fts MATCH ? AND a.entry_id IN (SELECT id FROM entries WHERE deleted_at IS NULL)"));
    assert!(q.sql.ends_with("tag_id = ?) ORDER BY bm25(document_nodes_fts)"));
    assert_eq!(texts(&q.args), vec!["\"operator\" \"norm\"", "#9"]);
    let q = node_search_query("Lie 代数", Some(2), None, Some("trash")).unwrap();
    assert!(q.sql.contains("substr(dnf.content, 1, 200) AS snippet"));
    assert!(q.sql.contains("dnf.content LIKE ? ESCAPE '\\' AND dnf.content LIKE ? ESCAPE '\\'"));
    assert!(q.sql.contains("deleted_at IS NOT NULL"));
    assert!(q.sql.ends_with(" ORDER BY dnf.attachment_id, dnf.page, dnf.node_id"));
    assert_eq!(texts(&q.args), vec!["%Lie%", "%代数%", "#2"]);
}

#[test]
fn blank_blocks_are_not_indexed() {
    let row = |id: i64, content: &str| NodeFtsInput {
        node_id: id,
        page: 1,
        node_kind: "paragraph".to_string(),
        content: content.to_string(),
    };
    let rows = vec![row(1, "text"), row(2, "  \n "), row(3, ""), row(4, "more")];
    assert_eq!(rows_to_index(&rows), vec![0, 3]);
}

#[test]
fn extraction_statuses_are_stored_by_name() {
    assert_eq!(ExtractionStatus::Completed.as_str(), "completed");
    assert_eq!(ExtractionStatus::CompletedWithWarnings.as_str(), "completed_with_warnings");
    assert_eq!(ExtractionStatus::Superseded.as_str(), "superseded");
    assert!(ExtractionStatus::CompletedWithWarnings.is_completed());
    assert!(!ExtractionStatus::Superseded.is_completed() && !ExtractionStatus::Pending.is_completed());
    let v = NewDocumentVersion {
        attachment_id: 1,
        content_key: "ck1",
        schema_version: "0.1.0",
        source_sha256: "sha",
        source_mime_type: "application/pdf",
        extractor_name: "x",
        extractor_version: "1",
        config_hash: "h",
        parent_version_id: None,
        status: ExtractionStatus::Completed,
        warnings_json: None,
        metadata_json: None,
    };
    assert_eq!(v.status.as_str(), "completed");
}
