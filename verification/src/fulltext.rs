//! Full-text index rules: where an attachment's index came from, which writer may
//! replace it, which pages are stored, and the statement of the full-text search.

use vstd::prelude::*;

use crate::entries::{build_fts_match_expr, fts_match_spec, like_escape, like_pattern};
use crate::models::strings_view;
use crate::query::{
    any_short_word, bind, cat, has_short_word, is_trash, is_trash_view, lit, then_lit,
    then_scope, view_text, ArgView, Frag, QueryText, SqlArg, SqlQuery, args_view,
};
use crate::text::{
    from_chars, i64_text, int_text, is_lit, push_lit, split_whitespace, to_chars, trim_chars,
    trim_spec, words,
};

verus! {

/// Settings key prefix of the per-attachment source record.
pub const FULLTEXT_SOURCE_KEY_PREFIX: &'static str = "fulltext.source.";

/// Where an attachment's full-text index came from, when that must be protected
/// from being overwritten. No record means the default (PDF text extraction) or
/// no index at all.
#[derive(Clone, Copy, PartialEq, Eq, Structural, Debug)]
pub enum FulltextSource {
    /// Derived from the page nodes of the document IR.
    Lcir,
    /// The output of an OCR run the user asked for; never replaced by derivation.
    Ocr,
}

impl FulltextSource {
    /// The text a source is recorded as.
    pub open spec fn text(self) -> Seq<char> {
        match self {
            FulltextSource::Lcir => "lcir"@,
            FulltextSource::Ocr => "ocr"@,
        }
    }

    /// The text the source is recorded as.
    pub fn as_str(self) -> (r: &'static str)
        ensures
            r@ == self.text(),
    {
        match self {
            FulltextSource::Lcir => "lcir",
            FulltextSource::Ocr => "ocr",
        }
    }

    /// The source a recorded text names, if any.
    pub open spec fn parse_spec(s: Seq<char>) -> Option<FulltextSource> {
        if s == "lcir"@ {
            Some(FulltextSource::Lcir)
        } else if s == "ocr"@ {
            Some(FulltextSource::Ocr)
        } else {
            None
        }
    }

    /// Reads a recorded text back (`None` for anything else).
    pub fn parse(s: &str) -> (r: Option<FulltextSource>)
        ensures
            r == FulltextSource::parse_spec(s@),
    {
        let c = to_chars(s);
        if is_lit(&c, "lcir") {
            Some(FulltextSource::Lcir)
        } else if is_lit(&c, "ocr") {
            Some(FulltextSource::Ocr)
        } else {
            None
        }
    }
}

/// A recorded source reads back as itself.
pub proof fn lemma_source_roundtrip(s: FulltextSource)
    ensures
        FulltextSource::parse_spec(s.text()) == Some(s),
{
    reveal_strlit("lcir");
    reveal_strlit("ocr");
    if s == FulltextSource::Ocr {
        assert("ocr"@ != "lcir"@) by {
            assert("ocr"@.len() != "lcir"@.len());
        }
    }
}

/// The settings key of an attachment's source record.
pub open spec fn source_key_spec(attachment_id: i64) -> Seq<char> {
    "fulltext.source."@ + int_text(attachment_id as int)
}

/// The settings key of an attachment's source record: the prefix and the id.
pub fn fulltext_source_key(attachment_id: i64) -> (r: String)
    ensures
        r@ == source_key_spec(attachment_id),
{
    let mut v: Vec<char> = Vec::new();
    push_lit(&mut v, FULLTEXT_SOURCE_KEY_PREFIX);
    let d = i64_text(attachment_id);
    crate::text::push_all(&mut v, &d);
    from_chars(&v)
}

/// The source a settings value records (`None` when absent or unknown).
pub fn recorded_source(raw: Option<&str>) -> (r: Option<FulltextSource>)
    ensures
        r == match raw {
            Some(s) => FulltextSource::parse_spec(s@),
            None => None,
        },
{
    match raw {
        Some(s) => FulltextSource::parse(s),
        None => None,
    }
}

// ── which pages are stored ────────────────────────────────────────────────

/// The pages stored for an attachment: those whose text is not blank, in order.
pub open spec fn stored_pages(pages: Seq<(i64, String)>) -> Seq<(i64, Seq<char>)>
    decreases pages.len(),
{
    if pages.len() == 0 {
        Seq::empty()
    } else {
        let rest = stored_pages(pages.drop_last());
        let (p, t) = pages.last();
        if trim_spec(t@).len() == 0 {
            rest
        } else {
            rest.push((p, t@))
        }
    }
}

/// The view of a list of pages.
pub open spec fn pages_view(pages: Seq<(i64, String)>) -> Seq<(i64, Seq<char>)> {
    pages.map_values(|x: (i64, String)| (x.0, x.1@))
}

/// Whether a page's text is blank.
fn is_blank(t: &String) -> (r: bool)
    ensures
        r == (trim_spec(t@).len() == 0),
{
    trim_chars(&to_chars(t.as_str())).len() == 0
}

/// The pages to insert for an attachment: blank pages are skipped.
pub fn pages_to_store(pages: &Vec<(i64, String)>) -> (r: Vec<(i64, String)>)
    ensures
        pages_view(r@) == stored_pages(pages@),
{
    let mut out: Vec<(i64, String)> = Vec::new();
    let mut i: usize = 0;
    while i < pages.len()
        invariant
            i <= pages.len(),
            pages_view(out@) == stored_pages(pages@.subrange(0, i as int)),
        decreases pages.len() - i,
    {
        proof {
            assert(pages@.subrange(0, i + 1).drop_last() =~= pages@.subrange(0, i as int));
        }
        if !is_blank(&pages[i].1) {
            let ghost before = out@;
            out.push((pages[i].0, pages[i].1.clone()));
            proof {
                assert(pages_view(out@) =~= pages_view(before).push((pages@[i as int].0, pages@[i as int].1@)));
            }
        }
        i = i + 1;
    }
    proof {
        assert(pages@.subrange(0, pages.len() as int) =~= pages@);
    }
    out
}

/// Every page's text is blank.
pub open spec fn all_blank(pages: Seq<(i64, String)>) -> bool {
    forall|i: int| 0 <= i < pages.len() ==> trim_spec((#[trigger] pages[i]).1@).len() == 0
}

/// Whether every page's text is blank (the extraction found no text).
pub fn pages_all_blank(pages: &Vec<(i64, String)>) -> (r: bool)
    ensures
        r == all_blank(pages@),
{
    let mut i: usize = 0;
    while i < pages.len()
        invariant
            i <= pages.len(),
            forall|k: int| 0 <= k < i ==> trim_spec((#[trigger] pages@[k]).1@).len() == 0,
        decreases pages.len() - i,
    {
        if !is_blank(&pages[i].1) {
            return false;
        }
        i = i + 1;
    }
    true
}

// ── the PDF-extraction writer ─────────────────────────────────────────────

/// What writing PDF-extracted pages did.
#[derive(Clone, Copy, PartialEq, Eq, Structural, Debug)]
pub enum PdfExtractWrite {
    /// The index was replaced (and the source record dropped).
    Replaced,
    /// A source record (OCR, or the IR unless replacing was asked for) protected it.
    SkippedProtected,
    /// The extraction found no text and an index exists, so it was kept.
    SkippedEmptyExtract,
}

/// The PDF-extraction writer's decision on an attachment whose recorded source
/// is `recorded`, given whether the user asked to replace this attachment's
/// index, whether every extracted page is blank, and how many index rows exist
/// (read only when every page is blank). `None` means: replace the index.
pub open spec fn pdf_extract_decision(
    recorded: Option<FulltextSource>,
    replace_existing: bool,
    all_pages_blank: bool,
    existing_rows: i64,
) -> Option<PdfExtractWrite> {
    let blocked = match recorded {
        Some(FulltextSource::Ocr) => true,
        Some(FulltextSource::Lcir) => !replace_existing,
        None => false,
    };
    if blocked {
        Some(PdfExtractWrite::SkippedProtected)
    } else if all_pages_blank && existing_rows > 0 {
        Some(PdfExtractWrite::SkippedEmptyExtract)
    } else {
        None
    }
}

/// Whether the recorded source keeps the PDF-extraction writer out: an OCR index
/// always, an IR-derived index unless the user asked to replace it.
pub fn pdf_extract_blocked(recorded: Option<FulltextSource>, replace_existing: bool) -> (r: bool)
    ensures
        r == (pdf_extract_decision(recorded, replace_existing, false, 0) == Some(
            PdfExtractWrite::SkippedProtected,
        )),
{
    match recorded {
        Some(FulltextSource::Ocr) => true,
        Some(FulltextSource::Lcir) => !replace_existing,
        None => false,
    }
}

/// The PDF-extraction writer's decision (see [`pdf_extract_decision`]).
pub fn decide_pdf_extract(
    recorded: Option<FulltextSource>,
    replace_existing: bool,
    all_pages_blank: bool,
    existing_rows: i64,
) -> (r: Option<PdfExtractWrite>)
    ensures
        r == pdf_extract_decision(recorded, replace_existing, all_pages_blank, existing_rows),
{
    if pdf_extract_blocked(recorded, replace_existing) {
        Some(PdfExtractWrite::SkippedProtected)
    } else if all_pages_blank && existing_rows > 0 {
        Some(PdfExtractWrite::SkippedEmptyExtract)
    } else {
        None
    }
}

/// An OCR index is never replaced by PDF extraction, whatever is asked.
pub proof fn lemma_ocr_survives_extraction(replace_existing: bool, blank: bool, rows: i64)
    ensures
        pdf_extract_decision(Some(FulltextSource::Ocr), replace_existing, blank, rows) == Some(
            PdfExtractWrite::SkippedProtected,
        ),
{
}

/// An extraction without text never wipes an existing index.
pub proof fn lemma_blank_extraction_keeps_index(
    recorded: Option<FulltextSource>,
    replace_existing: bool,
    rows: i64,
)
    requires
        rows > 0,
    ensures
        pdf_extract_decision(recorded, replace_existing, true, rows) is Some,
{
}

// ── the IR-derived writer ─────────────────────────────────────────────────

/// What writing IR-derived pages did.
#[derive(Clone, Copy, PartialEq, Eq, Structural, Debug)]
pub enum LcirWrite {
    /// The pages were replaced and the source recorded as the IR.
    Replaced,
    /// The index is recorded as OCR output and was left alone.
    SkippedOcr,
    /// An index without a source record was protected (automatic runs only).
    SkippedUnrecorded,
}

/// The IR-derived writer's decision (`None` means: replace and record).
pub open spec fn lcir_decision(
    recorded: Option<FulltextSource>,
    protect_unrecorded: bool,
    existing_rows: nat,
) -> Option<LcirWrite> {
    if recorded == Some(FulltextSource::Ocr) {
        Some(LcirWrite::SkippedOcr)
    } else if protect_unrecorded && recorded is None && existing_rows > 0 {
        Some(LcirWrite::SkippedUnrecorded)
    } else {
        None
    }
}

/// The IR-derived writer's decision, given the recorded source, whether an index
/// without a record is to be protected, and how many index rows exist.
pub fn decide_lcir(recorded: Option<FulltextSource>, protect_unrecorded: bool, existing_rows: usize) -> (r:
    Option<LcirWrite>)
    ensures
        r == lcir_decision(recorded, protect_unrecorded, existing_rows as nat),
{
    if recorded == Some(FulltextSource::Ocr) {
        Some(LcirWrite::SkippedOcr)
    } else if protect_unrecorded && recorded.is_none() && existing_rows > 0 {
        Some(LcirWrite::SkippedUnrecorded)
    } else {
        None
    }
}

/// Page `p` is one of `pages`.
pub open spec fn covers(pages: Seq<(i64, String)>, p: i64) -> bool {
    exists|i: int| 0 <= i < pages.len() && #[trigger] pages[i].0 == p
}

/// The existing rows, among the first `m`, whose page the new pages do not cover.
pub open spec fn kept_upto(
    pages: Seq<(i64, String)>,
    existing: Seq<(i64, String)>,
    m: int,
) -> Seq<(i64, Seq<char>)>
    decreases m,
{
    if m <= 0 {
        Seq::empty()
    } else {
        let rest = kept_upto(pages, existing, m - 1);
        if covers(pages, existing[m - 1].0) {
            rest
        } else {
            rest.push((existing[m - 1].0, existing[m - 1].1@))
        }
    }
}

fn covers_page(pages: &Vec<(i64, String)>, p: i64) -> (r: bool)
    ensures
        r == covers(pages@, p),
{
    let mut i: usize = 0;
    while i < pages.len()
        invariant
            i <= pages.len(),
            forall|k: int| 0 <= k < i ==> (#[trigger] pages@[k]).0 != p,
        decreases pages.len() - i,
    {
        if pages[i].0 == p {
            return true;
        }
        i = i + 1;
    }
    false
}

/// The existing rows the IR-derived pages leave in place: those of pages the IR
/// has no text for, in their order (the IR may miss a page that extraction or
/// OCR had).
pub fn lcir_kept_rows(pages: &Vec<(i64, String)>, existing: &Vec<(i64, String)>) -> (r: Vec<(i64, String)>)
    ensures
        pages_view(r@) == kept_upto(pages@, existing@, existing.len() as int),
{
    let mut out: Vec<(i64, String)> = Vec::new();
    let mut i: usize = 0;
    while i < existing.len()
        invariant
            i <= existing.len(),
            pages_view(out@) == kept_upto(pages@, existing@, i as int),
        decreases existing.len() - i,
    {
        if !covers_page(pages, existing[i].0) {
            let ghost before = out@;
            out.push((existing[i].0, existing[i].1.clone()));
            proof {
                assert(pages_view(out@) =~= pages_view(before).push((existing@[i as int].0, existing@[i as int].1@)));
            }
        }
        i = i + 1;
    }
    out
}

// ── the full-text search statement ────────────────────────────────────────

/// The match expression of the full-text search: each word as a quoted phrase.
pub fn build_match_expr(tokens: &Vec<String>) -> (r: String)
    ensures
        r@ == fts_match_spec(strings_view(tokens@)),
{
    build_fts_match_expr(tokens)
}

/// `LIKE` conditions on the page text, one per word, joined by ` AND `.
pub open spec fn content_likes(tokens: Seq<Seq<char>>, m: int) -> Frag
    decreases m,
{
    if m <= 0 {
        lit(Seq::empty())
    } else if m == 1 {
        cat(
            cat(lit("f.content LIKE "@), bind(ArgView::Text(seq!['%'] + like_escape(tokens[0]) + seq!['%']))),
            lit(" ESCAPE '\\'"@),
        )
    } else {
        cat(
            cat(
                cat(content_likes(tokens, m - 1), lit(" AND f.content LIKE "@)),
                bind(ArgView::Text(seq!['%'] + like_escape(tokens[m - 1]) + seq!['%'])),
            ),
            lit(" ESCAPE '\\'"@),
        )
    }
}

/// The full-text search over indexed pages for the words of a query, within the
/// trash or the live entries, a collection and a tag when given. A word shorter
/// than three chars switches to `LIKE` on the page text (pages in order, the
/// snippet the first 200 chars); otherwise the trigram index is matched (best
/// first, the snippet marked around the match). `None` when the query has no word.
pub open spec fn fulltext_frag(
    query: Seq<char>,
    collection_id: Option<i64>,
    tag_id: Option<i64>,
    view: Option<Seq<char>>,
) -> Option<Frag> {
    let tokens = words(query);
    if tokens.len() == 0 {
        None
    } else {
        let like = has_short_word(tokens);
        let head = lit(
            "SELECT f.attachment_id AS attachment_id, f.page AS page, "@ + if like {
                "substr(f.content, 1, 200) AS snippet, "@
            } else {
                "snippet(fulltext, 0, '⟨', '⟩', '…', 12) AS snippet, "@
            } + "a.entry_id AS entry_id
         FROM fulltext f
         JOIN attachments a ON a.id = f.attachment_id
         WHERE "@,
        );
        let matched = if like {
            cat(head, content_likes(tokens, tokens.len() as int))
        } else {
            cat(cat(head, lit("fulltext MATCH "@)), bind(ArgView::Text(fts_match_spec(tokens))))
        };
        let viewed = then_lit(
            matched,
            if is_trash(view) {
                " AND a.entry_id IN (SELECT id FROM entries WHERE deleted_at IS NOT NULL)"@
            } else {
                " AND a.entry_id IN (SELECT id FROM entries WHERE deleted_at IS NULL)"@
            },
        );
        let scoped = then_scope(
            then_scope(
                viewed,
                " AND a.entry_id IN (SELECT entry_id FROM entry_collections WHERE collection_id = "@,
                collection_id,
            ),
            " AND a.entry_id IN (SELECT entry_id FROM entry_tags WHERE tag_id = "@,
            tag_id,
        );
        Some(
            then_lit(
                scoped,
                if like {
                    " ORDER BY f.attachment_id, f.page"@
                } else {
                    " ORDER BY bm25(fulltext)"@
                },
            ),
        )
    }
}

/// The statement of the full-text search (see [`fulltext_frag`]).
pub fn fulltext_search_query(
    query: &str,
    collection_id: Option<i64>,
    tag_id: Option<i64>,
    view: Option<&str>,
) -> (r: Option<SqlQuery>)
    ensures
        match (r, fulltext_frag(query@, collection_id, tag_id, view_text(view))) {
            (Some(q), Some(f)) => q.sql@ == f.text && args_view(q.args@) == f.args,
            (None, None) => true,
            _ => false,
        },
{
    let tokens = split_whitespace(query);
    if tokens.len() == 0 {
        return None;
    }
    let like = any_short_word(&tokens);
    let mut q = if like {
        QueryText::start(
            "SELECT f.attachment_id AS attachment_id, f.page AS page, substr(f.content, 1, 200) AS snippet, a.entry_id AS entry_id
         FROM fulltext f
         JOIN attachments a ON a.id = f.attachment_id
         WHERE ",
        )
    } else {
        QueryText::start(
            "SELECT f.attachment_id AS attachment_id, f.page AS page, snippet(fulltext, 0, '⟨', '⟩', '…', 12) AS snippet, a.entry_id AS entry_id
         FROM fulltext f
         JOIN attachments a ON a.id = f.attachment_id
         WHERE ",
        )
    };
    proof {
        reveal_strlit(
            "SELECT f.attachment_id AS attachment_id, f.page AS page, substr(f.content, 1, 200) AS snippet, a.entry_id AS entry_id
         FROM fulltext f
         JOIN attachments a ON a.id = f.attachment_id
         WHERE ",
        );
        reveal_strlit(
            "SELECT f.attachment_id AS attachment_id, f.page AS page, snippet(fulltext, 0, '⟨', '⟩', '…', 12) AS snippet, a.entry_id AS entry_id
         FROM fulltext f
         JOIN attachments a ON a.id = f.attachment_id
         WHERE ",
        );
        reveal_strlit("SELECT f.attachment_id AS attachment_id, f.page AS page, ");
        reveal_strlit("substr(f.content, 1, 200) AS snippet, ");
        reveal_strlit("snippet(fulltext, 0, '⟨', '⟩', '…', 12) AS snippet, ");
        reveal_strlit(
            "a.entry_id AS entry_id
         FROM fulltext f
         JOIN attachments a ON a.id = f.attachment_id
         WHERE ",
        );
        assert("SELECT f.attachment_id AS attachment_id, f.page AS page, substr(f.content, 1, 200) AS snippet, a.entry_id AS entry_id
         FROM fulltext f
         JOIN attachments a ON a.id = f.attachment_id
         WHERE "@ =~= "SELECT f.attachment_id AS attachment_id, f.page AS page, "@
            + "substr(f.content, 1, 200) AS snippet, "@ + "a.entry_id AS entry_id
         FROM fulltext f
         JOIN attachments a ON a.id = f.attachment_id
         WHERE "@);
        assert("SELECT f.attachment_id AS attachment_id, f.page AS page, snippet(fulltext, 0, '⟨', '⟩', '…', 12) AS snippet, a.entry_id AS entry_id
         FROM fulltext f
         JOIN attachments a ON a.id = f.attachment_id
         WHERE "@ =~= "SELECT f.attachment_id AS attachment_id, f.page AS page, "@
            + "snippet(fulltext, 0, '⟨', '⟩', '…', 12) AS snippet, "@ + "a.entry_id AS entry_id
         FROM fulltext f
         JOIN attachments a ON a.id = f.attachment_id
         WHERE "@);
    }
    let ghost head = q.frag();
    let ghost tv = strings_view(tokens@);
    if like {
        let mut i: usize = 0;
        proof {
            assert(cat(head, lit(Seq::empty())) == head) by {
                assert(cat(head, lit(Seq::empty())).text =~= head.text);
                assert(cat(head, lit(Seq::empty())).args =~= head.args);
            }
        }
        while i < tokens.len()
            invariant
                i <= tokens.len(),
                tv == strings_view(tokens@),
                q.frag() == cat(head, content_likes(tv, i as int)),
            decreases tokens.len() - i,
        {
            let ghost before = q.frag();
            if i == 0 {
                q.push("f.content LIKE ");
            } else {
                q.push(" AND f.content LIKE ");
            }
            q.push_bind(SqlArg::Text(like_pattern(tokens[i].as_str())));
            q.push(" ESCAPE '\\'");
            proof {
                let fr = q.frag();
                let want = cat(head, content_likes(tv, i + 1));
                assert(fr.text =~= want.text);
                assert(fr.args =~= want.args);
            }
            i = i + 1;
        }
    } else {
        q.push("fulltext MATCH ");
        q.push_bind(SqlArg::Text(build_match_expr(&tokens)));
    }
    if is_trash_view(view) {
        q.push(" AND a.entry_id IN (SELECT id FROM entries WHERE deleted_at IS NOT NULL)");
    } else {
        q.push(" AND a.entry_id IN (SELECT id FROM entries WHERE deleted_at IS NULL)");
    }
    match collection_id {
        Some(id) => {
            q.push(" AND a.entry_id IN (SELECT entry_id FROM entry_collections WHERE collection_id = ");
            q.push_bind(SqlArg::Int(id));
            q.push(")");
        },
        None => {},
    }
    match tag_id {
        Some(id) => {
            q.push(" AND a.entry_id IN (SELECT entry_id FROM entry_tags WHERE tag_id = ");
            q.push_bind(SqlArg::Int(id));
            q.push(")");
        },
        None => {},
    }
    if like {
        q.push(" ORDER BY f.attachment_id, f.page");
    } else {
        q.push(" ORDER BY bm25(fulltext)");
    }
    Some(q.finish())
}

// ── the block-level index ─────────────────────────────────────────────────

/// One row of the block-level full-text index (one content block of the IR).
#[derive(Debug)]
pub struct NodeFtsInput {
    pub node_id: i64,
    pub page: i64,
    pub node_kind: String,
    pub content: String,
}

/// The rows, among the first `m`, that are indexed: those whose content is not blank.
pub open spec fn indexed_rows(rows: Seq<NodeFtsInput>, m: int) -> Seq<int>
    decreases m,
{
    if m <= 0 {
        Seq::empty()
    } else if trim_spec(rows[m - 1].content@).len() == 0 {
        indexed_rows(rows, m - 1)
    } else {
        indexed_rows(rows, m - 1).push(m - 1)
    }
}

/// Positions of the rows to insert when an attachment's block index is rebuilt:
/// blank content is skipped; order is kept.
pub fn rows_to_index(rows: &Vec<NodeFtsInput>) -> (r: Vec<usize>)
    ensures
        r@.map_values(|i: usize| i as int) == indexed_rows(rows@, rows.len() as int),
{
    let mut out: Vec<usize> = Vec::new();
    let mut i: usize = 0;
    while i < rows.len()
        invariant
            i <= rows.len(),
            out@.map_values(|k: usize| k as int) == indexed_rows(rows@, i as int),
        decreases rows.len() - i,
    {
        if !is_blank(&rows[i].content) {
            let ghost before = out@;
            out.push(i);
            proof {
                assert(out@.map_values(|k: usize| k as int) =~= before.map_values(|k: usize| k as int).push(i as int));
            }
        }
        i = i + 1;
    }
    out
}

// ── the block-level search statement ─────────────────────────────────────

/// `LIKE` conditions on the block text, one per word, joined by ` AND `.
pub open spec fn node_likes(tokens: Seq<Seq<char>>, m: int) -> Frag
    decreases m,
{
    if m <= 0 {
        lit(Seq::empty())
    } else if m == 1 {
        cat(
            cat(lit("dnf.content LIKE "@), bind(ArgView::Text(seq!['%'] + like_escape(tokens[0]) + seq!['%']))),
            lit(" ESCAPE '\\'"@),
        )
    } else {
        cat(
            cat(
                cat(node_likes(tokens, m - 1), lit(" AND dnf.content LIKE "@)),
                bind(ArgView::Text(seq!['%'] + like_escape(tokens[m - 1]) + seq!['%'])),
            ),
            lit(" ESCAPE '\\'"@),
        )
    }
}

/// The search over indexed blocks for the words of a query, as the page search
/// ([`fulltext_frag`]) but per block: each hit names its node, page and kind.
/// `None` when the query has no word.
pub open spec fn node_search_frag(
    query: Seq<char>,
    collection_id: Option<i64>,
    tag_id: Option<i64>,
    view: Option<Seq<char>>,
) -> Option<Frag> {
    let tokens = words(query);
    if tokens.len() == 0 {
        None
    } else {
        let like = has_short_word(tokens);
        let head = lit("SELECT dnf.node_id AS node_id, dnf.attachment_id AS attachment_id, dnf.page AS page, dnf.node_kind AS node_kind, "@ + if like { "substr(dnf.content, 1, 200) AS snippet, "@ } else { "snippet(document_nodes_fts, 0, '⟨', '⟩', '…', 12) AS snippet, "@ } + "a.entry_id AS entry_id
         FROM document_nodes_fts dnf
         JOIN attachments a ON a.id = dnf.attachment_id
         WHERE "@);
        let matched = if like {
            cat(head, node_likes(tokens, tokens.len() as int))
        } else {
            cat(cat(head, lit("document_nodes_fts MATCH "@)), bind(ArgView::Text(fts_match_spec(tokens))))
        };
        let viewed = then_lit(
            matched,
            if is_trash(view) {
                " AND a.entry_id IN (SELECT id FROM entries WHERE deleted_at IS NOT NULL)"@
            } else {
                " AND a.entry_id IN (SELECT id FROM entries WHERE deleted_at IS NULL)"@
            },
        );
        let scoped = then_scope(
            then_scope(
                viewed,
                " AND a.entry_id IN (SELECT entry_id FROM entry_collections WHERE collection_id = "@,
                collection_id,
            ),
            " AND a.entry_id IN (SELECT entry_id FROM entry_tags WHERE tag_id = "@,
            tag_id,
        );
        Some(
            then_lit(
                scoped,
                if like {
                    " ORDER BY dnf.attachment_id, dnf.page, dnf.node_id"@
                } else {
                    " ORDER BY bm25(document_nodes_fts)"@
                },
            ),
        )
    }
}

/// The statement of the block-level search (see [`node_search_frag`]).
pub fn node_search_query(
    query: &str,
    collection_id: Option<i64>,
    tag_id: Option<i64>,
    view: Option<&str>,
) -> (r: Option<SqlQuery>)
    ensures
        match (r, node_search_frag(query@, collection_id, tag_id, view_text(view))) {
            (Some(q), Some(f)) => q.sql@ == f.text && args_view(q.args@) == f.args,
            (None, None) => true,
            _ => false,
        },
{
    let tokens = split_whitespace(query);
    if tokens.len() == 0 {
        return None;
    }
    let like = any_short_word(&tokens);
    let mut q = if like {
        QueryText::start(
            "SELECT dnf.node_id AS node_id, dnf.attachment_id AS attachment_id, dnf.page AS page, dnf.node_kind AS node_kind, substr(dnf.content, 1, 200) AS snippet, a.entry_id AS entry_id
         FROM document_nodes_fts dnf
         JOIN attachments a ON a.id = dnf.attachment_id
         WHERE ",
        )
    } else {
        QueryText::start(
            "SELECT dnf.node_id AS node_id, dnf.attachment_id AS attachment_id, dnf.page AS page, dnf.node_kind AS node_kind, snippet(document_nodes_fts, 0, '⟨', '⟩', '…', 12) AS snippet, a.entry_id AS entry_id
         FROM document_nodes_fts dnf
         JOIN attachments a ON a.id = dnf.attachment_id
         WHERE ",
        )
    };
    proof {
        reveal_strlit(
            "SELECT dnf.node_id AS node_id, dnf.attachment_id AS attachment_id, dnf.page AS page, dnf.node_kind AS node_kind, substr(dnf.content, 1, 200) AS snippet, a.entry_id AS entry_id
         FROM document_nodes_fts dnf
         JOIN attachments a ON a.id = dnf.attachment_id
         WHERE ",
        );
        reveal_strlit(
            "SELECT dnf.node_id AS node_id, dnf.attachment_id AS attachment_id, dnf.page AS page, dnf.node_kind AS node_kind, snippet(document_nodes_fts, 0, '⟨', '⟩', '…', 12) AS snippet, a.entry_id AS entry_id
         FROM document_nodes_fts dnf
         JOIN attachments a ON a.id = dnf.attachment_id
         WHERE ",
        );
        reveal_strlit("SELECT dnf.node_id AS node_id, dnf.attachment_id AS attachment_id, dnf.page AS page, dnf.node_kind AS node_kind, ");
        reveal_strlit("substr(dnf.content, 1, 200) AS snippet, ");
        reveal_strlit("snippet(document_nodes_fts, 0, '⟨', '⟩', '…', 12) AS snippet, ");
        reveal_strlit(
            "a.entry_id AS entry_id
         FROM document_nodes_fts dnf
         JOIN attachments a ON a.id = dnf.attachment_id
         WHERE ",
        );
        assert("SELECT dnf.node_id AS node_id, dnf.attachment_id AS attachment_id, dnf.page AS page, dnf.node_kind AS node_kind, substr(dnf.content, 1, 200) AS snippet, a.entry_id AS entry_id
         FROM document_nodes_fts dnf
         JOIN attachments a ON a.id = dnf.attachment_id
         WHERE "@ =~= "SELECT dnf.node_id AS node_id, dnf.attachment_id AS attachment_id, dnf.page AS page, dnf.node_kind AS node_kind, "@ + "substr(dnf.content, 1, 200) AS snippet, "@ + "a.entry_id AS entry_id
         FROM document_nodes_fts dnf
         JOIN attachments a ON a.id = dnf.attachment_id
         WHERE "@);
        assert("SELECT dnf.node_id AS node_id, dnf.attachment_id AS attachment_id, dnf.page AS page, dnf.node_kind AS node_kind, snippet(document_nodes_fts, 0, '⟨', '⟩', '…', 12) AS snippet, a.entry_id AS entry_id
         FROM document_nodes_fts dnf
         JOIN attachments a ON a.id = dnf.attachment_id
         WHERE "@ =~= "SELECT dnf.node_id AS node_id, dnf.attachment_id AS attachment_id, dnf.page AS page, dnf.node_kind AS node_kind, "@ + "snippet(document_nodes_fts, 0, '⟨', '⟩', '…', 12) AS snippet, "@ + "a.entry_id AS entry_id
         FROM document_nodes_fts dnf
         JOIN attachments a ON a.id = dnf.attachment_id
         WHERE "@);
    }
    let ghost head = q.frag();
    let ghost tv = strings_view(tokens@);
    if like {
        let mut i: usize = 0;
        proof {
            assert(cat(head, lit(Seq::empty())) == head) by {
                assert(cat(head, lit(Seq::empty())).text =~= head.text);
                assert(cat(head, lit(Seq::empty())).args =~= head.args);
            }
        }
        while i < tokens.len()
            invariant
                i <= tokens.len(),
                tv == strings_view(tokens@),
                q.frag() == cat(head, node_likes(tv, i as int)),
            decreases tokens.len() - i,
        {
            if i == 0 {
                q.push("dnf.content LIKE ");
            } else {
                q.push(" AND dnf.content LIKE ");
            }
            q.push_bind(SqlArg::Text(like_pattern(tokens[i].as_str())));
            q.push(" ESCAPE '\\'");
            proof {
                let fr = q.frag();
                let want = cat(head, node_likes(tv, i + 1));
                assert(fr.text =~= want.text);
                assert(fr.args =~= want.args);
            }
            i = i + 1;
        }
    } else {
        q.push("document_nodes_fts MATCH ");
        q.push_bind(SqlArg::Text(build_match_expr(&tokens)));
    }
    if is_trash_view(view) {
        q.push(" AND a.entry_id IN (SELECT id FROM entries WHERE deleted_at IS NOT NULL)");
    } else {
        q.push(" AND a.entry_id IN (SELECT id FROM entries WHERE deleted_at IS NULL)");
    }
    match collection_id {
        Some(id) => {
            q.push(" AND a.entry_id IN (SELECT entry_id FROM entry_collections WHERE collection_id = ");
            q.push_bind(SqlArg::Int(id));
            q.push(")");
        },
        None => {},
    }
    match tag_id {
        Some(id) => {
            q.push(" AND a.entry_id IN (SELECT entry_id FROM entry_tags WHERE tag_id = ");
            q.push_bind(SqlArg::Int(id));
            q.push(")");
        },
        None => {},
    }
    if like {
        q.push(" ORDER BY dnf.attachment_id, dnf.page, dnf.node_id");
    } else {
        q.push(" ORDER BY bm25(document_nodes_fts)");
    }
    Some(q.finish())
}

} // verus!
