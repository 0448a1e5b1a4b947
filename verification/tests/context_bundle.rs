use lumencite::bundle::{build_node_context, DocRelation, DocSymbol, Document, NodeContext};
use lumencite::context::{ContextNoteCode, ContextOptions, DocAsset, DocMath, DocNode, ContextNode, FOCUS_TEXT_CAP};
use lumencite::reading::reading_order;

fn node(id: i64, kind: &str, ordinal: i64, parent: Option<i64>, text: Option<&str>) -> DocNode {
    DocNode {
        id,
        kind: kind.to_string(),
        ordinal,
        parent_id: parent,
        plain_text: text.map(|s| s.to_string()),
        heading_level: None,
        payload: Vec::new(),
        math: None,
        alt_text: None,
        assets: Vec::new(),
        page: None,
        origin: Some("layout_model".to_string()),
    }
}

/// One region on `page` (a PDF representation).
fn with_region(mut n: DocNode, page: i64) -> DocNode {
    n.page = Some(page);
    n
}

fn with_level(n: DocNode, level: i64) -> DocNode {
    with_payload(n, &[("heading_level", &level.to_string())])
}

/// Payload members, each value as JSON text; `heading_level` is also the declared level.
fn with_payload(mut n: DocNode, members: &[(&str, &str)]) -> DocNode {
    for (k, v) in members {
        if *k == "heading_level" {
            n.heading_level = v.parse().ok();
        }
        n.payload.push((k.to_string(), v.to_string()));
    }
    n
}

fn identifier(n: &ContextNode, key: &str) -> serde_json::Value {
    let (_, v) = n.identifiers.iter().find(|(k, _)| k == key).expect("identifier present");
    serde_json::from_str(v).unwrap()
}

fn math(latex: Option<&str>, normalized: Option<&str>, status: &str) -> DocMath {
    DocMath {
        display_mode: "display".to_string(),
        equation_label: None,
        latex: latex.map(|s| s.to_string()),
        presentation_mathml: None,
        content_mathml: None,
        openmath: None,
        normalized_text: normalized.map(|s| s.to_string()),
        semantic_status: status.to_string(),
        origin: None,
    }
}

fn rel(from: i64, ty: &str, to: i64) -> DocRelation {
    DocRelation {
        from_node_id: from,
        to_node_id: to,
        relation_type: ty.to_string(),
        resolved_via: None,
    }
}

fn doc(nodes: Vec<DocNode>, relations: Vec<DocRelation>) -> Document {
    Document {
        version_id: 7,
        nodes,
        relations,
        symbols: Vec::new(),
    }
}

/// `document > page > block`: a theorem (10), a formula (11) and a paragraph (12)
/// on page 1, a paragraph (20) and a section heading (21) on page 2.
fn pdf_two_pages() -> Document {
    doc(
        vec![
            node(1, "document", 0, None, None),
            node(2, "page", 0, Some(1), None),
            node(3, "page", 1, Some(1), None),
            with_region(
                with_payload(
                    node(10, "theorem", 0, Some(2), Some("Theorem 2 (1D limit). Let a, b.")),
                    &[("theorem_number", "\"2\""), ("note", "\"1D limit\"")],
                ),
                1,
            ),
            with_region(node(11, "display_math", 1, Some(2), Some("rho = w f, (19)")), 1),
            with_region(node(12, "paragraph", 2, Some(2), Some("where the weight w is")), 1),
            with_region(node(20, "paragraph", 0, Some(3), Some("defined in (E8).")), 2),
            with_region(
                with_payload(
                    node(21, "section", 1, Some(3), Some("3 Numerical results")),
                    &[("heading_level", "1"), ("section_number", "\"3\"")],
                ),
                2,
            ),
        ],
        Vec::new(),
    )
}

fn ids(v: &[ContextNode]) -> Vec<i64> {
    v.iter().map(|n| n.node_id).collect()
}

fn has_note(c: &NodeContext, code: ContextNoteCode) -> bool {
    c.notes.iter().any(|n| n.code == code)
}

#[test]
fn continuation_crosses_page_boundary_and_stops_at_next_boundary() {
    let c = build_node_context(&pdf_two_pages(), 10, &ContextOptions::default()).unwrap();
    assert_eq!(ids(&c.continuation), vec![11, 12, 20]);
    assert_eq!(c.continuation[2].page, Some(2));
    assert!(!has_note(&c, ContextNoteCode::ContinuationTruncated));
}

#[test]
fn continuation_stops_before_the_next_theorem() {
    let mut d = pdf_two_pages();
    d.nodes[6] = with_region(node(20, "lemma", 0, Some(3), Some("Lemma 3.")), 2);
    let c = build_node_context(&d, 10, &ContextOptions::default()).unwrap();
    assert_eq!(ids(&c.continuation), vec![11, 12]);
}

#[test]
fn continuation_is_capped_by_block_count_and_reports_it() {
    let opts = ContextOptions {
        max_continuation: 1,
        ..Default::default()
    };
    let c = build_node_context(&pdf_two_pages(), 10, &opts).unwrap();
    assert_eq!(ids(&c.continuation), vec![11]);
    assert!(has_note(&c, ContextNoteCode::ContinuationTruncated));
}

#[test]
fn continuation_is_capped_by_char_budget_and_reports_it() {
    let opts = ContextOptions {
        max_continuation_chars: 5,
        ..Default::default()
    };
    let c = build_node_context(&pdf_two_pages(), 10, &opts).unwrap();
    assert_eq!(ids(&c.continuation), vec![11]);
    assert!(c.continuation[0].text_truncated);
    assert!(has_note(&c, ContextNoteCode::ContinuationTruncated));
}

#[test]
fn before_includes_the_first_boundary_then_stops() {
    let c = build_node_context(&pdf_two_pages(), 20, &ContextOptions::default()).unwrap();
    assert_eq!(ids(&c.before), vec![11, 12]);

    let c2 = build_node_context(&pdf_two_pages(), 12, &ContextOptions::default()).unwrap();
    assert_eq!(ids(&c2.before), vec![10, 11]);
}

#[test]
fn section_path_takes_enclosing_headings_in_root_order() {
    let d = doc(
        vec![
            node(1, "document", 0, None, None),
            with_level(node(2, "section", 0, Some(1), Some("2 Setup")), 1),
            with_level(node(3, "subsection", 1, Some(1), Some("2.1 Notation")), 2),
            node(4, "paragraph", 2, Some(1), Some("We write ...")),
        ],
        Vec::new(),
    );
    let c = build_node_context(&d, 4, &ContextOptions::default()).unwrap();
    assert_eq!(ids(&c.section_path), vec![2, 3]);
}

#[test]
fn section_path_ignores_headings_without_a_declared_level() {
    let d = doc(
        vec![
            node(1, "document", 0, None, None),
            with_level(node(2, "section", 0, Some(1), Some("2 Setup")), 1),
            node(3, "heading", 1, Some(1), Some("bound")),
            node(4, "abstract", 2, Some(1), Some("We study ...")),
            node(5, "paragraph", 3, Some(1), Some("We write ...")),
        ],
        Vec::new(),
    );
    let c = build_node_context(&d, 5, &ContextOptions::default()).unwrap();
    assert_eq!(ids(&c.section_path), vec![2]);
}

#[test]
fn a_heading_without_a_declared_level_does_not_cut_the_statement() {
    let mut d = pdf_two_pages();
    d.nodes[4] = with_region(node(11, "heading", 1, Some(2), Some("AiAj =")), 1);
    let c = build_node_context(&d, 10, &ContextOptions::default()).unwrap();
    assert_eq!(ids(&c.continuation), vec![11, 12, 20]);

    d.nodes[4] = with_region(with_level(node(11, "heading", 1, Some(2), Some("2.1 Setup")), 2), 1);
    let c2 = build_node_context(&d, 10, &ContextOptions::default()).unwrap();
    assert!(c2.continuation.is_empty());
    assert_eq!(c2.continuation_stopped_at.as_ref().unwrap().kind.as_deref(), Some("heading"));
}

#[test]
fn continuation_reports_where_and_why_it_stopped() {
    let mut d = pdf_two_pages();
    d.nodes[4] = with_region(node(11, "figure_caption", 1, Some(2), Some("FIG. 1. A contour.")), 1);
    let c = build_node_context(&d, 10, &ContextOptions::default()).unwrap();
    let stop = c.continuation_stopped_at.as_ref().unwrap();
    assert_eq!(stop.reason, "boundary");
    assert_eq!(stop.node_id, Some(11));
    assert_eq!(stop.kind.as_deref(), Some("figure_caption"));
    assert!(c.continuation.is_empty());
    assert!(!has_note(&c, ContextNoteCode::ContinuationTruncated));

    let last = build_node_context(&d, 20, &ContextOptions::default()).unwrap();
    assert_eq!(last.continuation_stopped_at.as_ref().unwrap().reason, "boundary");
}

#[test]
fn before_skips_nodes_without_text() {
    let mut d = pdf_two_pages();
    d.nodes.push(with_region(node(80, "figure", 10, Some(2), None), 1));
    d.nodes.push(with_region(node(81, "figure", 11, Some(2), None), 1));
    let c = build_node_context(&d, 20, &ContextOptions::default()).unwrap();
    assert_eq!(ids(&c.before), vec![11, 12]);
}

#[test]
fn missing_focus_node_returns_none() {
    assert!(build_node_context(&pdf_two_pages(), 999, &ContextOptions::default()).is_none());
}

#[test]
fn skeleton_focus_is_reported_and_yields_no_neighbours() {
    let c = build_node_context(&pdf_two_pages(), 2, &ContextOptions::default()).unwrap();
    assert!(c.before.is_empty() && c.continuation.is_empty());
    assert!(has_note(&c, ContextNoteCode::FocusIsNotAContentBlock));
}

#[test]
fn relations_are_collected_from_the_continuation_too() {
    let mut d = pdf_two_pages();
    d.nodes.push(with_region(node(30, "display_math", 5, Some(3), Some("E = mc^2")), 2));
    d.relations = vec![rel(12, "refers_to_equation", 30)];
    let c = build_node_context(&d, 10, &ContextOptions::default()).unwrap();
    assert_eq!(c.equations.len(), 1);
    assert_eq!(c.equations[0].from_node_id, 12);
    assert_eq!(c.equations[0].node.node_id, 30);
}

#[test]
fn equation_reference_keeps_the_real_target_kind() {
    let mut d = pdf_two_pages();
    d.relations = vec![rel(10, "refers_to_equation", 20)];
    let c = build_node_context(&d, 10, &ContextOptions::default()).unwrap();
    assert_eq!(c.equations[0].node.kind, "paragraph");
}

#[test]
fn proofs_come_in_as_incoming_proves_edges() {
    let mut d = pdf_two_pages();
    d.nodes.push(with_region(node(40, "proof", 3, Some(3), Some("Proof. ...")), 2));
    d.relations = vec![rel(40, "proves", 10)];
    let c = build_node_context(&d, 10, &ContextOptions::default()).unwrap();
    assert_eq!(c.proofs.iter().map(|r| r.node.node_id).collect::<Vec<_>>(), vec![40]);
    assert_eq!(c.proofs[0].direction.as_str(), "incoming");
    assert!(c.proves.is_empty());

    let c2 = build_node_context(&d, 40, &ContextOptions::default()).unwrap();
    assert_eq!(c2.proves[0].node.node_id, 10);
    assert_eq!(c2.proves[0].direction.as_str(), "outgoing");
    assert!(!has_note(&c2, ContextNoteCode::ProvesTargetIsNotATheorem));
}

#[test]
fn proves_pointing_at_a_remark_is_flagged() {
    let mut d = pdf_two_pages();
    d.nodes[3] = with_region(node(10, "remark", 0, Some(2), Some("Remark.")), 1);
    d.nodes.push(with_region(node(40, "proof", 3, Some(3), Some("Proof.")), 2));
    d.relations = vec![rel(40, "proves", 10)];
    let c = build_node_context(&d, 40, &ContextOptions::default()).unwrap();
    assert_eq!(c.proves[0].node.kind, "remark");
    assert!(has_note(&c, ContextNoteCode::ProvesTargetIsNotATheorem));
}

#[test]
fn citations_and_other_references_are_separated() {
    let mut d = pdf_two_pages();
    d.nodes.push(node(50, "bibliography_entry", 9, Some(3), Some("[1] Smith")));
    d.nodes.push(with_region(node(51, "lemma", 8, Some(3), Some("Lemma 1.")), 2));
    d.relations = vec![rel(10, "cites", 50), rel(10, "refers_to_theorem", 51)];
    let c = build_node_context(&d, 10, &ContextOptions::default()).unwrap();
    assert_eq!(c.citations[0].node.node_id, 50);
    assert_eq!(c.references[0].node.node_id, 51);
}

#[test]
fn related_lists_are_capped_and_reported() {
    let mut d = pdf_two_pages();
    for i in 0..5 {
        d.nodes.push(node(100 + i, "bibliography_entry", 9 + i, Some(3), Some("[x]")));
        d.relations.push(rel(10, "cites", 100 + i));
    }
    let opts = ContextOptions {
        max_related: 2,
        ..Default::default()
    };
    let c = build_node_context(&d, 10, &opts).unwrap();
    assert_eq!(c.citations.len(), 2);
    assert!(has_note(&c, ContextNoteCode::RelatedTruncated));
}

fn figure_node(id: i64) -> DocNode {
    let mut n = with_region(
        with_payload(node(id, "figure", 20, Some(3), None), &[("figure_index", "1"), ("figure_number", "\"3\"")]),
        2,
    );
    n.assets = vec![DocAsset {
        role: "page_crop".to_string(),
        mime_type: "image/png".to_string(),
        relative_path: "attachments/1/.lcir/fig.png".to_string(),
        width: Some(800),
        height: Some(600),
        size_bytes: Some(1234),
        sha256: "abc".to_string(),
        metadata: None,
    }];
    n
}

#[test]
fn float_reference_without_caption_of_is_flagged_unreachable() {
    let mut d = pdf_two_pages();
    d.nodes.push(with_region(node(60, "figure_caption", 10, Some(3), Some("Figure 3: architecture")), 2));
    d.relations = vec![rel(10, "refers_to_figure", 60)];
    let c = build_node_context(&d, 10, &ContextOptions::default()).unwrap();
    assert!(c.figures[0].figure.is_none());
    assert_eq!(c.figures[0].caption.as_ref().unwrap().node_id, 60);
    assert!(has_note(&c, ContextNoteCode::FloatEntityUnreachable));
}

#[test]
fn float_reference_to_the_region_attaches_the_caption_backwards() {
    let mut d = pdf_two_pages();
    d.nodes.push(with_region(node(60, "figure_caption", 10, Some(3), Some("Figure 3: architecture")), 2));
    d.nodes.push(figure_node(61));
    let mut r = rel(10, "refers_to_figure", 61);
    r.resolved_via = Some("node".to_string());
    d.relations = vec![r, rel(60, "caption_of", 61)];
    let c = build_node_context(&d, 10, &ContextOptions::default()).unwrap();
    assert_eq!(c.figures[0].figure.as_ref().unwrap().node_id, 61);
    assert_eq!(c.figures[0].caption.as_ref().unwrap().node_id, 60);
}

#[test]
fn a_figure_entity_as_focus_still_reaches_its_caption() {
    let mut d = pdf_two_pages();
    d.nodes.push(with_region(node(60, "figure_caption", 10, Some(3), Some("Figure 3: architecture")), 2));
    d.nodes.push(figure_node(61));
    d.relations = vec![rel(60, "caption_of", 61)];

    let c = build_node_context(&d, 61, &ContextOptions::default()).unwrap();
    assert_eq!(c.focus.kind, "figure");
    assert_eq!(c.figures.len(), 1, "{:?}", c.figures);
    assert_eq!(c.figures[0].caption.as_ref().unwrap().node_id, 60);
    assert_eq!(
        c.figures[0].caption.as_ref().unwrap().text.as_deref(),
        Some("Figure 3: architecture")
    );
    assert_eq!(c.figures[0].figure.as_ref().unwrap().node_id, 61);
}

fn tex_doc_with_symbols(symbols: Vec<DocSymbol>) -> Document {
    let mut d = doc(
        vec![
            node(1, "document", 0, None, None),
            node(2, "definition", 0, Some(1), Some("Let $U$ be the evolution operator.")),
            node(3, "paragraph", 1, Some(1), Some("We now state the result.")),
            node(4, "theorem", 2, Some(1), Some("The operator $U$ is unitary.")),
            node(5, "definition", 3, Some(1), Some("Let $V$ be the shift.")),
        ],
        Vec::new(),
    );
    d.symbols = symbols;
    d
}

fn symbol(surface: &str, defined_at: i64, description: Option<&str>) -> DocSymbol {
    DocSymbol {
        surface_form: surface.to_string(),
        normalized_form: None,
        description: description.map(|s| s.to_string()),
        symbol_type: None,
        origin: Some("tex_source".to_string()),
        defined_at_node_id: Some(defined_at),
        occurrence_node_ids: Vec::new(),
    }
}

#[test]
fn premise_via_symbol_requires_a_definition_earlier_in_reading_order() {
    let d = tex_doc_with_symbols(vec![
        symbol("U", 2, Some("the evolution operator")),
        symbol("V", 5, Some("the shift")),
    ]);
    let c = build_node_context(&d, 4, &ContextOptions::default()).unwrap();
    assert_eq!(c.premises.len(), 1, "{:?}", c.premises);
    assert_eq!(c.premises[0].via.as_str(), "symbol");
    assert_eq!(c.premises[0].node.node_id, 2);
    assert_eq!(
        c.premises[0].symbol.as_ref().unwrap().description.as_deref(),
        Some("the evolution operator")
    );
}

#[test]
fn premise_via_occurrence_wins_over_surface_matching() {
    let mut d = tex_doc_with_symbols(vec![symbol("U", 2, None)]);
    d.symbols[0].occurrence_node_ids = vec![4];
    let c = build_node_context(&d, 4, &ContextOptions::default()).unwrap();
    assert_eq!(c.premises[0].via.as_str(), "occurrence");
}

#[test]
fn premise_skips_symbols_absent_from_the_text() {
    let d = tex_doc_with_symbols(vec![symbol("W", 2, Some("unused"))]);
    let c = build_node_context(&d, 4, &ContextOptions::default()).unwrap();
    assert!(c.premises.is_empty(), "{:?}", c.premises);
}

#[test]
fn premise_via_explicit_reference_to_a_definition() {
    let mut d = pdf_two_pages();
    d.nodes.push(with_region(node(70, "definition", 7, Some(3), Some("Definition 1. A graph is ...")), 2));
    d.relations = vec![rel(10, "refers_to_theorem", 70)];
    let c = build_node_context(&d, 10, &ContextOptions::default()).unwrap();
    assert_eq!(c.premises.len(), 1);
    assert_eq!(c.premises[0].via.as_str(), "reference");
    assert_eq!(c.premises[0].node.node_id, 70);
    assert!(c.premises[0].relation.is_some());
    assert_eq!(c.references.len(), 1);
}

#[test]
fn the_same_definition_is_not_listed_twice_as_a_premise() {
    let mut d = pdf_two_pages();
    d.nodes.push(with_region(node(70, "definition", 7, Some(3), Some("Definition 1. A graph is ...")), 2));
    d.relations = vec![rel(10, "refers_to_theorem", 70), rel(12, "refers_to_theorem", 70)];
    let c = build_node_context(&d, 10, &ContextOptions::default()).unwrap();
    assert_eq!(c.premises.len(), 1, "{:?}", c.premises);
    assert_eq!(c.references.len(), 2);
}

#[test]
fn reference_premises_survive_the_related_cap() {
    let mut d = pdf_two_pages();
    for i in 0..4 {
        d.nodes.push(node(100 + i, "bibliography_entry", 20 + i, Some(3), Some("[x]")));
        d.relations.push(rel(10, "refers_to_theorem", 100 + i));
    }
    d.nodes.push(with_region(node(70, "definition", 30, Some(3), Some("Definition 1.")), 2));
    d.relations.push(rel(10, "refers_to_theorem", 70));
    let opts = ContextOptions {
        max_related: 2,
        ..Default::default()
    };
    let c = build_node_context(&d, 10, &opts).unwrap();
    assert_eq!(c.references.len(), 2);
    assert_eq!(c.premises.len(), 1, "{:?}", c.premises);
    assert_eq!(c.premises[0].node.node_id, 70);
}

#[test]
fn truncating_premises_is_reported() {
    let mut d = tex_doc_with_symbols(vec![
        symbol("U", 2, Some("the evolution operator")),
        symbol("W", 2, Some("another")),
    ]);
    d.nodes[3].plain_text = Some("The operators $U$ and $W$ are unitary.".to_string());
    let opts = ContextOptions {
        max_premises: 1,
        ..Default::default()
    };
    let c = build_node_context(&d, 4, &opts).unwrap();
    assert_eq!(c.premises.len(), 1);
    assert!(has_note(&c, ContextNoteCode::PremisesTruncated));
}

#[test]
fn the_continuation_budget_counts_latex_too() {
    let mut d = pdf_two_pages();
    d.nodes[4].plain_text = Some("x".to_string());
    let latex = "y".repeat(500);
    d.nodes[4].math = Some(math(Some(&latex), None, "source_provided"));
    let opts = ContextOptions {
        max_continuation_chars: 100,
        ..Default::default()
    };
    let c = build_node_context(&d, 10, &opts).unwrap();
    assert_eq!(ids(&c.continuation), vec![11]);
    assert!(has_note(&c, ContextNoteCode::ContinuationTruncated));
}

#[test]
fn notes_are_empty_when_nothing_actually_went_wrong() {
    let pdf = build_node_context(&pdf_two_pages(), 10, &ContextOptions::default()).unwrap();
    assert!(pdf.notes.is_empty(), "{:?}", pdf.notes);
    let tex = tex_doc_with_symbols(Vec::new());
    let tex = build_node_context(&tex, 4, &ContextOptions::default()).unwrap();
    assert!(tex.notes.is_empty(), "{:?}", tex.notes);
}

#[test]
fn focus_text_is_clipped_at_the_cap() {
    let long = "x".repeat(FOCUS_TEXT_CAP + 50);
    let d = doc(
        vec![
            node(1, "document", 0, None, None),
            node(2, "paragraph", 0, Some(1), Some(&long)),
        ],
        Vec::new(),
    );
    let c = build_node_context(&d, 2, &ContextOptions::default()).unwrap();
    assert!(c.focus.text_truncated);
    assert_eq!(c.focus.text.as_ref().unwrap().chars().count(), FOCUS_TEXT_CAP + 1);
}

#[test]
fn output_is_independent_of_input_order() {
    let mut d = pdf_two_pages();
    d.nodes.push(node(50, "bibliography_entry", 9, Some(3), Some("[1]")));
    d.nodes.push(node(51, "bibliography_entry", 10, Some(3), Some("[2]")));
    d.relations = vec![rel(10, "cites", 51), rel(10, "cites", 50)];
    let a = build_node_context(&d, 10, &ContextOptions::default()).unwrap();

    d.nodes.reverse();
    d.relations.reverse();
    let b = build_node_context(&d, 10, &ContextOptions::default()).unwrap();
    let strip = |c: &NodeContext| {
        let mut s = format!("{:?}", c);
        for r in c.citations.iter().chain(c.references.iter()) {
            s = s.replace(&format!("relation: {}", r.relation), "relation: _");
        }
        s
    };
    assert_eq!(strip(&a), strip(&b));
    assert_eq!(a.citations.iter().map(|r| r.node.node_id).collect::<Vec<_>>(), vec![50, 51]);
}

#[test]
fn cyclic_parent_links_do_not_hang() {
    let d = doc(
        vec![
            node(1, "paragraph", 0, Some(2), Some("a")),
            node(2, "paragraph", 0, Some(1), Some("b")),
            node(3, "paragraph", 1, None, Some("c")),
        ],
        Vec::new(),
    );
    let c = build_node_context(&d, 1, &ContextOptions::default()).unwrap();
    assert_eq!(c.focus.node_id, 1);
}

// ── further cases ─────────────────────────────────────────────────────────

#[test]
fn a_caption_reference_resolves_one_step_to_its_region() {
    let mut d = pdf_two_pages();
    d.nodes.push(with_region(node(60, "figure_caption", 10, Some(3), Some("Figure 3: architecture")), 2));
    d.nodes.push(figure_node(61));
    let mut r = rel(10, "refers_to_figure", 60);
    r.resolved_via = Some("caption".to_string());
    d.relations = vec![r, rel(60, "caption_of", 61)];
    let c = build_node_context(&d, 10, &ContextOptions::default()).unwrap();
    assert_eq!(c.figures.len(), 1);
    let f = &c.figures[0];
    assert_eq!(f.resolved_via.as_deref(), Some("caption"));
    assert_eq!(f.node.node_id, 60);
    assert_eq!(f.caption.as_ref().unwrap().node_id, 60);
    assert_eq!(f.figure.as_ref().unwrap().node_id, 61);
    assert_eq!(f.figure.as_ref().unwrap().page, Some(2));
    assert_eq!(f.figure.as_ref().unwrap().assets.len(), 1);
    assert!(!has_note(&c, ContextNoteCode::FloatEntityUnreachable));
}

#[test]
fn nodes_carry_their_origin() {
    let c = build_node_context(&pdf_two_pages(), 10, &ContextOptions::default()).unwrap();
    assert_eq!(c.focus.origin.as_deref(), Some("layout_model"));
    assert!(c.continuation.iter().all(|n| n.origin.is_some()));
    assert_eq!(c.version_id, 7);
    assert_eq!(c.node_id, 10);
}

#[test]
fn the_end_of_the_document_stops_the_continuation() {
    let d = doc(
        vec![
            node(1, "document", 0, None, None),
            node(2, "paragraph", 0, Some(1), Some("first")),
            node(3, "paragraph", 1, Some(1), Some("second")),
        ],
        Vec::new(),
    );
    let c = build_node_context(&d, 2, &ContextOptions::default()).unwrap();
    assert_eq!(ids(&c.continuation), vec![3]);
    assert_eq!(c.continuation_stopped_at.as_ref().unwrap().reason, "end_of_document");
    assert!(c.continuation_stopped_at.as_ref().unwrap().node_id.is_none());
}

#[test]
fn notes_come_in_code_order_with_their_sentence() {
    let mut d = pdf_two_pages();
    d.nodes[3] = with_region(node(10, "remark", 0, Some(2), Some("Remark.")), 1);
    d.nodes.push(with_region(node(40, "proof", 3, Some(3), Some("Proof.")), 2));
    d.nodes.push(with_region(node(41, "paragraph", 4, Some(3), Some("It follows.")), 2));
    d.nodes.push(with_region(node(60, "figure_caption", 5, Some(3), Some("Figure 1")), 2));
    d.relations = vec![rel(40, "refers_to_figure", 60), rel(40, "proves", 10)];
    let opts = ContextOptions {
        max_continuation: 0,
        ..Default::default()
    };
    let c = build_node_context(&d, 40, &opts).unwrap();
    let codes: Vec<&str> = c.notes.iter().map(|n| n.code.as_str()).collect();
    assert_eq!(
        codes,
        vec!["continuation_truncated", "float_entity_unreachable", "proves_target_is_not_a_theorem"]
    );
    assert_eq!(c.notes[0].message, ContextNoteCode::ContinuationTruncated.message());
}

#[test]
fn reading_order_is_preorder_then_the_unreached_nodes() {
    let nodes = vec![
        node(6, "paragraph", 0, Some(5), Some("f")),
        node(3, "paragraph", 1, Some(1), Some("c")),
        node(4, "paragraph", 0, Some(2), Some("d")),
        node(1, "document", 0, None, None),
        node(5, "paragraph", 0, Some(6), Some("e")),
        node(2, "paragraph", 0, Some(1), Some("b")),
    ];
    assert_eq!(reading_order(&nodes), vec![1, 2, 4, 3, 6, 5]);
}

#[test]
fn a_parent_outside_the_document_makes_a_root() {
    let nodes = vec![
        node(8, "paragraph", 2, Some(99), Some("late root")),
        node(7, "paragraph", 1, None, Some("early root")),
    ];
    assert_eq!(reading_order(&nodes), vec![7, 8]);
    assert!(reading_order(&Vec::new()).is_empty());
}

#[test]
fn identifiers_carry_the_cite_key() {
    let d = doc(
        vec![
            node(1, "document", 0, None, None),
            with_payload(
                node(2, "bibliography_entry", 0, Some(1), Some("[1] Smith 2020")),
                &[("cite_key", "\"smith2020\"")],
            ),
        ],
        Vec::new(),
    );
    let c = build_node_context(&d, 2, &ContextOptions::default()).unwrap();
    assert_eq!(identifier(&c.focus, "cite_key"), "smith2020");
}

#[test]
fn focus_identifiers_come_from_payload() {
    let c = build_node_context(&pdf_two_pages(), 10, &ContextOptions::default()).unwrap();
    assert_eq!(identifier(&c.focus, "theorem_number"), "2");
    assert_eq!(identifier(&c.focus, "note"), "1D limit");
}

#[test]
fn focus_math_is_passed_through_verbatim() {
    let mut d = pdf_two_pages();
    let mut m = math(None, Some("rho = w f"), "surface_only");
    m.equation_label = Some("(19)".to_string());
    m.origin = Some("pdf_text_layer".to_string());
    d.nodes[4].math = Some(m);
    let c = build_node_context(&d, 11, &ContextOptions::default()).unwrap();
    let m = c.focus.math.as_ref().unwrap();
    assert_eq!(m.semantic_status, "surface_only");
    assert!(m.latex.is_none());
    assert_eq!(m.normalized_text.as_deref(), Some("rho = w f"));
}

#[test]
fn internal_payload_keys_are_not_shown() {
    let mut d = pdf_two_pages();
    d.nodes.push(figure_node(61));
    let c = build_node_context(&d, 61, &ContextOptions::default()).unwrap();
    let keys: Vec<&str> = c.focus.identifiers.iter().map(|(k, _)| k.as_str()).collect();
    assert_eq!(keys, vec!["figure_number"]);
}

#[test]
fn a_repeated_id_is_read_once() {
    let nodes = vec![
        node(1, "document", 0, None, None),
        node(2, "paragraph", 1, Some(1), Some("second copy")),
        node(2, "paragraph", 0, Some(1), Some("first copy")),
        node(3, "paragraph", 0, Some(2), Some("child")),
    ];
    assert_eq!(reading_order(&nodes), vec![1, 2, 3]);
}

#[test]
fn listing_the_nodes_in_another_order_keeps_the_reading_order() {
    let listed = || {
        vec![
            node(6, "paragraph", 0, Some(5), Some("f")),
            node(3, "paragraph", 1, Some(1), Some("c")),
            node(4, "paragraph", 0, Some(2), Some("d")),
            node(1, "document", 0, None, None),
            node(5, "paragraph", 0, Some(6), Some("e")),
            node(2, "paragraph", 0, Some(1), Some("b")),
        ]
    };
    let expected = reading_order(&listed());
    let mut reversed = listed();
    reversed.reverse();
    let mut rotated = listed();
    rotated.rotate_left(2);
    assert_eq!(reading_order(&reversed), expected);
    assert_eq!(reading_order(&rotated), expected);
}

#[test]
fn the_continuation_runs_to_the_next_boundary_within_the_limits() {
    let d = pdf_two_pages();
    let c = build_node_context(&d, 10, &ContextOptions::default()).unwrap();
    assert_eq!(ids(&c.continuation), vec![11, 12, 20]);
    let stop = c.continuation_stopped_at.as_ref().unwrap();
    assert_eq!(stop.reason, "boundary");
    assert_eq!(stop.node_id, Some(21));
    assert!(c.notes.iter().all(|n| n.code != ContextNoteCode::ContinuationTruncated));

    let opts = ContextOptions { max_continuation: 1, ..ContextOptions::default() };
    let c = build_node_context(&d, 10, &opts).unwrap();
    assert_eq!(ids(&c.continuation), vec![11]);
    assert_eq!(c.continuation_stopped_at.as_ref().unwrap().reason, "max_continuation");
    assert!(c.notes.iter().any(|n| n.code == ContextNoteCode::ContinuationTruncated));
    assert!(c.before.len() <= opts.max_before);
    assert!(c.section_path.len() <= 4);
}
