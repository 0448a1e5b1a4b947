//! The context bundle of one document node: the blocks read before it, the blocks
//! that continue it up to the next structural boundary (across pages), the
//! headings enclosing it, and the notes on what the bundle could not carry.
//!
//! The document is taken in reading order as a sequence of node ids; each node is
//! looked up by id (the last node listed with an id stands for it).

use vstd::prelude::*;

use crate::models::{clone_opt, opt_view};
use vstd::string::StrSliceExecFns;

use crate::text::{from_chars, is_lit, to_chars, trim_chars, trim_spec};

verus! {

/// Characters of the focus node's text kept before it is clipped.
pub const FOCUS_TEXT_CAP: usize = 4000;

/// Characters of each block before the focus.
pub const BEFORE_TEXT_CAP: usize = 600;

/// Characters of the node at the other end of a relation (and of a heading).
pub const RELATED_TEXT_CAP: usize = 240;

/// Characters of a premise's defining block.
pub const PREMISE_TEXT_CAP: usize = 400;

// ── notes ─────────────────────────────────────────────────────────────────

/// A stable, machine-readable note on what a bundle could not carry or what to
/// trust less. Only what happened in this bundle is noted, each fact once.
#[derive(Clone, Copy, PartialEq, Eq, Structural, Debug)]
pub enum ContextNoteCode {
    /// The focus is a skeleton node (`document`/`page`/`line`): no neighbours.
    FocusIsNotAContentBlock,
    /// The continuation was cut at a size limit; more blocks follow.
    ContinuationTruncated,
    /// Some figure/table reference reached only a caption, not the region.
    FloatEntityUnreachable,
    /// A `proves` edge points at something other than a theorem, lemma,
    /// proposition or corollary.
    ProvesTargetIsNotATheorem,
    /// A relation list was cut at its limit.
    RelatedTruncated,
    /// The premises were cut at their limit.
    PremisesTruncated,
}

/// Every note code, in declaration order.
pub open spec fn all_note_codes() -> Seq<ContextNoteCode> {
    seq![
        ContextNoteCode::FocusIsNotAContentBlock,
        ContextNoteCode::ContinuationTruncated,
        ContextNoteCode::FloatEntityUnreachable,
        ContextNoteCode::ProvesTargetIsNotATheorem,
        ContextNoteCode::RelatedTruncated,
        ContextNoteCode::PremisesTruncated,
    ]
}

impl ContextNoteCode {
    /// The code's text.
    pub open spec fn text(self) -> Seq<char> {
        match self {
            ContextNoteCode::FocusIsNotAContentBlock => "focus_is_not_a_content_block"@,
            ContextNoteCode::ContinuationTruncated => "continuation_truncated"@,
            ContextNoteCode::FloatEntityUnreachable => "float_entity_unreachable"@,
            ContextNoteCode::ProvesTargetIsNotATheorem => "proves_target_is_not_a_theorem"@,
            ContextNoteCode::RelatedTruncated => "related_truncated"@,
            ContextNoteCode::PremisesTruncated => "premises_truncated"@,
        }
    }

    /// The code's sentence for the reader of the bundle.
    pub open spec fn message_text(self) -> Seq<char> {
        match self {
            ContextNoteCode::FocusIsNotAContentBlock => "the focus node is a skeleton node (document/page/line), so no surrounding blocks were assembled; pass a content block id from search_document_nodes or get_document_blocks"@,
            ContextNoteCode::ContinuationTruncated => "the continuation was cut at a size limit before reaching the next structural boundary; more blocks follow"@,
            ContextNoteCode::FloatEntityUnreachable => "at least one figure/table reference resolved only to a caption block, with no caption_of edge reaching the region itself, so its bbox, crop asset and alt text are unavailable; this is the norm on the tex representation (which builds no figure nodes) and happens on the pdf representation when neither a raster image nor a vector path cluster was detected next to the caption"@,
            ContextNoteCode::ProvesTargetIsNotATheorem => "a proves edge points at a remark/example/definition rather than a theorem/lemma/proposition/corollary; on the pdf representation most proves edges come from reading-order adjacency, so treat it as a hint"@,
            ContextNoteCode::RelatedTruncated => "at least one relation list was cut at max_related"@,
            ContextNoteCode::PremisesTruncated => "premises were cut at max_premises; more definitions back this block"@,
        }
    }

    /// Position of the code in declaration order.
    pub open spec fn order(self) -> nat {
        match self {
            ContextNoteCode::FocusIsNotAContentBlock => 0,
            ContextNoteCode::ContinuationTruncated => 1,
            ContextNoteCode::FloatEntityUnreachable => 2,
            ContextNoteCode::ProvesTargetIsNotATheorem => 3,
            ContextNoteCode::RelatedTruncated => 4,
            ContextNoteCode::PremisesTruncated => 5,
        }
    }

    /// The code's stable text.
    pub fn as_str(self) -> (r: &'static str)
        ensures
            r@ == self.text(),
    {
        match self {
            ContextNoteCode::FocusIsNotAContentBlock => "focus_is_not_a_content_block",
            ContextNoteCode::ContinuationTruncated => "continuation_truncated",
            ContextNoteCode::FloatEntityUnreachable => "float_entity_unreachable",
            ContextNoteCode::ProvesTargetIsNotATheorem => "proves_target_is_not_a_theorem",
            ContextNoteCode::RelatedTruncated => "related_truncated",
            ContextNoteCode::PremisesTruncated => "premises_truncated",
        }
    }

    /// The sentence shown with the code.
    pub fn message(self) -> (r: &'static str)
        ensures
            r@ == self.message_text(),
    {
        match self {
            ContextNoteCode::FocusIsNotAContentBlock => "the focus node is a skeleton node (document/page/line), so no surrounding blocks were assembled; pass a content block id from search_document_nodes or get_document_blocks",
            ContextNoteCode::ContinuationTruncated => "the continuation was cut at a size limit before reaching the next structural boundary; more blocks follow",
            ContextNoteCode::FloatEntityUnreachable => "at least one figure/table reference resolved only to a caption block, with no caption_of edge reaching the region itself, so its bbox, crop asset and alt text are unavailable; this is the norm on the tex representation (which builds no figure nodes) and happens on the pdf representation when neither a raster image nor a vector path cluster was detected next to the caption",
            ContextNoteCode::ProvesTargetIsNotATheorem => "a proves edge points at a remark/example/definition rather than a theorem/lemma/proposition/corollary; on the pdf representation most proves edges come from reading-order adjacency, so treat it as a hint",
            ContextNoteCode::RelatedTruncated => "at least one relation list was cut at max_related",
            ContextNoteCode::PremisesTruncated => "premises were cut at max_premises; more definitions back this block",
        }
    }

    /// Position of the code in declaration order.
    pub fn index(self) -> (r: usize)
        ensures
            r == self.order(),
            r < 6,
    {
        match self {
            ContextNoteCode::FocusIsNotAContentBlock => 0,
            ContextNoteCode::ContinuationTruncated => 1,
            ContextNoteCode::FloatEntityUnreachable => 2,
            ContextNoteCode::ProvesTargetIsNotATheorem => 3,
            ContextNoteCode::RelatedTruncated => 4,
            ContextNoteCode::PremisesTruncated => 5,
        }
    }
}

fn note_code_at(i: usize) -> (c: ContextNoteCode)
    requires
        i < 6,
    ensures
        c == all_note_codes()[i as int],
        c.order() == i,
{
    if i == 0 {
        ContextNoteCode::FocusIsNotAContentBlock
    } else if i == 1 {
        ContextNoteCode::ContinuationTruncated
    } else if i == 2 {
        ContextNoteCode::FloatEntityUnreachable
    } else if i == 3 {
        ContextNoteCode::ProvesTargetIsNotATheorem
    } else if i == 4 {
        ContextNoteCode::RelatedTruncated
    } else {
        ContextNoteCode::PremisesTruncated
    }
}

/// Different codes have different texts.
pub proof fn lemma_note_text_injective(a: ContextNoteCode, b: ContextNoteCode)
    ensures
        a.text() == b.text() ==> a == b,
{
    reveal_strlit("focus_is_not_a_content_block");
    reveal_strlit("continuation_truncated");
    reveal_strlit("float_entity_unreachable");
    reveal_strlit("proves_target_is_not_a_theorem");
    reveal_strlit("related_truncated");
    reveal_strlit("premises_truncated");
    if a.text() == b.text() && a != b {
        assert(a.text().len() == b.text().len());
        assert(a.text()[0] == b.text()[0]);
    }
}

/// One note of a bundle: its code and sentence.
#[derive(Debug)]
pub struct ContextNote {
    pub code: ContextNoteCode,
    pub message: String,
}

/// The notes raised while a bundle is assembled, each code once.
pub struct NoteSet {
    flags: Vec<bool>,
}

/// The codes among the first `m` (declaration order) whose flag is set.
pub open spec fn raised_upto(flags: Seq<bool>, m: int) -> Seq<ContextNoteCode>
    decreases m,
{
    if m <= 0 {
        Seq::empty()
    } else if flags[m - 1] {
        raised_upto(flags, m - 1).push(all_note_codes()[m - 1])
    } else {
        raised_upto(flags, m - 1)
    }
}

impl NoteSet {
    /// Which codes are raised, by declaration order.
    pub closed spec fn flags(&self) -> Seq<bool> {
        self.flags@
    }

    /// One flag per code.
    pub open spec fn wf(&self) -> bool {
        self.flags().len() == 6
    }

    /// No note raised.
    pub fn new() -> (r: NoteSet)
        ensures
            r.wf(),
            forall|i: int| 0 <= i < 6 ==> !r.flags()[i],
    {
        let mut flags: Vec<bool> = Vec::new();
        for i in 0..6usize
            invariant
                flags.len() == i,
                forall|j: int| 0 <= j < i ==> !flags@[j],
        {
            flags.push(false);
        }
        NoteSet { flags }
    }

    /// Raises `code` (again is the same as once).
    pub fn add(&mut self, code: ContextNoteCode)
        requires
            old(self).wf(),
        ensures
            final(self).wf(),
            final(self).flags() == old(self).flags().update(code.order() as int, true),
    {
        let i = code.index();
        self.flags.set(i, true);
    }

    /// The raised notes, each once, in declaration order of their codes.
    pub fn finish(&self) -> (r: Vec<ContextNote>)
        requires
            self.wf(),
        ensures
            r@.len() == raised_upto(self.flags(), 6).len(),
            forall|k: int|
                0 <= k < r@.len() ==> (#[trigger] r@[k]).code == raised_upto(self.flags(), 6)[k]
                    && r@[k].message@ == r@[k].code.message_text(),
    {
        let mut out: Vec<ContextNote> = Vec::new();
        let mut i: usize = 0;
        while i < 6
            invariant
                self.wf(),
                i <= 6,
                out@.len() == raised_upto(self.flags(), i as int).len(),
                forall|k: int|
                    0 <= k < out@.len() ==> (#[trigger] out@[k]).code == raised_upto(
                        self.flags(),
                        i as int,
                    )[k] && out@[k].message@ == out@[k].code.message_text(),
            decreases 6 - i,
        {
            if self.flags[i] {
                let code = note_code_at(i);
                out.push(ContextNote { code, message: String::from_str(code.message()) });
            }
            i = i + 1;
        }
        out
    }
}

// ── options and the stop of a continuation ────────────────────────────────

/// How large a bundle may grow.
#[derive(Debug, Clone, Copy, PartialEq, Eq, Structural)]
pub struct ContextOptions {
    /// Blocks before the focus (stopping after the first structural boundary).
    pub max_before: usize,
    /// Blocks after the focus (up to the next structural boundary).
    pub max_continuation: usize,
    /// Characters of the whole continuation.
    pub max_continuation_chars: usize,
    /// Items of each relation list.
    pub max_related: usize,
    /// Premises.
    pub max_premises: usize,
}

impl Default for ContextOptions {
    fn default() -> (r: ContextOptions)
        ensures
            r.max_before == 2,
            r.max_continuation == 16,
            r.max_continuation_chars == 6000,
            r.max_related == 12,
            r.max_premises == 12,
    {
        ContextOptions {
            max_before: 2,
            max_continuation: 16,
            max_continuation_chars: 6000,
            max_related: 12,
            max_premises: 12,
        }
    }
}

/// Where and why a continuation stopped: `boundary` (the next logical unit,
/// named by `node_id` and `kind`), `max_continuation` or `max_continuation_chars`
/// (a limit; more blocks follow), `end_of_document`.
#[derive(Debug)]
pub struct ContinuationStop {
    pub reason: String,
    pub node_id: Option<i64>,
    pub kind: Option<String>,
}

/// The view of a stop.
pub struct StopView {
    pub reason: Seq<char>,
    pub node_id: Option<i64>,
    pub kind: Option<Seq<char>>,
}

/// A stop at a limit or at the end of the document.
pub open spec fn limit_stop(reason: Seq<char>) -> StopView {
    StopView { reason, node_id: None, kind: None }
}

impl ContinuationStop {
    /// The stop as a value.
    pub open spec fn view(&self) -> StopView {
        StopView { reason: self.reason@, node_id: self.node_id, kind: opt_view(self.kind) }
    }

    /// A stop for `reason` with no boundary node.
    pub fn limit(reason: &str) -> (r: ContinuationStop)
        ensures
            r.view() == limit_stop(reason@),
    {
        ContinuationStop { reason: String::from_str(reason), node_id: None, kind: None }
    }

    /// Whether the stop was a size limit (so more blocks follow).
    pub fn truncated(&self) -> (r: bool)
        ensures
            r == (self.reason@ == "max_continuation"@ || self.reason@
                == "max_continuation_chars"@),
    {
        let c = to_chars(self.reason.as_str());
        is_lit(&c, "max_continuation") || is_lit(&c, "max_continuation_chars")
    }
}

// ── kinds of nodes ────────────────────────────────────────────────────────

/// A block with content: anything but the skeleton `document`, `page`, `line`.
pub open spec fn is_content_kind(kind: Seq<char>) -> bool {
    !(kind == "document"@ || kind == "page"@ || kind == "line"@)
}

/// Whether a node of `kind` is a content block.
pub fn is_content_block(kind: &str) -> (r: bool)
    ensures
        r == is_content_kind(kind@),
{
    let c = to_chars(kind);
    !(is_lit(&c, "document") || is_lit(&c, "page") || is_lit(&c, "line"))
}

/// The heading level of a node: declared by a `section`, `subsection` or
/// `heading` node, and nothing for any other kind.
pub open spec fn heading_level_spec(kind: Seq<char>, declared: Option<i64>) -> Option<i64> {
    if kind == "section"@ || kind == "subsection"@ || kind == "heading"@ {
        declared
    } else {
        None
    }
}

/// The heading level of a node of `kind` that declares `declared`.
pub fn heading_level_of(kind: &str, declared: Option<i64>) -> (r: Option<i64>)
    ensures
        r == heading_level_spec(kind@, declared),
{
    let c = to_chars(kind);
    if is_lit(&c, "section") || is_lit(&c, "subsection") || is_lit(&c, "heading") {
        declared
    } else {
        None
    }
}

/// A kind that starts another logical unit.
pub open spec fn is_boundary_kind(kind: Seq<char>) -> bool {
    kind == "definition"@ || kind == "theorem"@ || kind == "lemma"@ || kind == "proposition"@
        || kind == "corollary"@ || kind == "remark"@ || kind == "example"@ || kind == "proof"@
        || kind == "section"@ || kind == "subsection"@ || kind == "abstract"@ || kind
        == "front_matter"@ || kind == "bibliography"@ || kind == "bibliography_entry"@ || kind
        == "figure_caption"@ || kind == "table_caption"@
}

/// A structural boundary: a heading that declares its level, or a node of a
/// boundary kind (a heading without a level is often a cut-out formula and does
/// not stop a statement).
pub open spec fn is_boundary(kind: Seq<char>, declared: Option<i64>) -> bool {
    if kind == "heading"@ {
        declared is Some
    } else {
        is_boundary_kind(kind)
    }
}

/// Whether a node of `kind` declaring heading level `declared` is a structural boundary.
pub fn is_structural_boundary(kind: &str, declared: Option<i64>) -> (r: bool)
    ensures
        r == is_boundary(kind@, declared),
{
    let c = to_chars(kind);
    if is_lit(&c, "heading") {
        return declared.is_some();
    }
    is_lit(&c, "definition") || is_lit(&c, "theorem") || is_lit(&c, "lemma") || is_lit(
        &c,
        "proposition",
    ) || is_lit(&c, "corollary") || is_lit(&c, "remark") || is_lit(&c, "example") || is_lit(
        &c,
        "proof",
    ) || is_lit(&c, "section") || is_lit(&c, "subsection") || is_lit(&c, "abstract") || is_lit(
        &c,
        "front_matter",
    ) || is_lit(&c, "bibliography") || is_lit(&c, "bibliography_entry") || is_lit(
        &c,
        "figure_caption",
    ) || is_lit(&c, "table_caption")
}

/// Whether a node of `kind` is a figure or table region.
pub fn is_float_entity(kind: &str) -> (r: bool)
    ensures
        r == (kind@ == "figure"@ || kind@ == "table"@),
{
    let c = to_chars(kind);
    is_lit(&c, "figure") || is_lit(&c, "table")
}

/// Whether a node of `kind` is a theorem, lemma, proposition or corollary.
pub fn is_strict_theorem(kind: &str) -> (r: bool)
    ensures
        r == (kind@ == "theorem"@ || kind@ == "lemma"@ || kind@ == "proposition"@ || kind@
            == "corollary"@),
{
    let c = to_chars(kind);
    is_lit(&c, "theorem") || is_lit(&c, "lemma") || is_lit(&c, "proposition") || is_lit(
        &c,
        "corollary",
    )
}

// ── nodes and their text ──────────────────────────────────────────────────

/// The formula of a node (display math), as the bundle passes it on.
#[derive(Debug)]
pub struct DocMath {
    pub display_mode: String,
    pub equation_label: Option<String>,
    /// The LaTeX source (TeX representations).
    pub latex: Option<String>,
    pub presentation_mathml: Option<String>,
    pub content_mathml: Option<String>,
    pub openmath: Option<String>,
    /// The surface text (PDF representations).
    pub normalized_text: Option<String>,
    pub semantic_status: String,
    pub origin: Option<String>,
}

/// The view of a [`DocMath`].
pub struct MathView {
    pub display_mode: Seq<char>,
    pub equation_label: Option<Seq<char>>,
    pub latex: Option<Seq<char>>,
    pub presentation_mathml: Option<Seq<char>>,
    pub content_mathml: Option<Seq<char>>,
    pub openmath: Option<Seq<char>>,
    pub normalized_text: Option<Seq<char>>,
    pub semantic_status: Seq<char>,
    pub origin: Option<Seq<char>>,
}

impl DocMath {
    /// The formula as a value.
    pub open spec fn view(&self) -> MathView {
        MathView {
            display_mode: self.display_mode@,
            equation_label: opt_view(self.equation_label),
            latex: opt_view(self.latex),
            presentation_mathml: opt_view(self.presentation_mathml),
            content_mathml: opt_view(self.content_mathml),
            openmath: opt_view(self.openmath),
            normalized_text: opt_view(self.normalized_text),
            semantic_status: self.semantic_status@,
            origin: opt_view(self.origin),
        }
    }
}

/// The view of an optional formula.
pub open spec fn math_view(m: Option<DocMath>) -> Option<MathView> {
    match m {
        Some(x) => Some(x.view()),
        None => None,
    }
}

/// A file derived from a node (a figure crop, ...): a reference, not the file.
#[derive(Debug)]
pub struct DocAsset {
    pub role: String,
    pub mime_type: String,
    pub relative_path: String,
    pub width: Option<i64>,
    pub height: Option<i64>,
    pub size_bytes: Option<i64>,
    pub sha256: String,
    /// Further metadata, as JSON text.
    pub metadata: Option<String>,
}

/// The view of a [`DocAsset`].
pub struct AssetView {
    pub role: Seq<char>,
    pub mime_type: Seq<char>,
    pub relative_path: Seq<char>,
    pub width: Option<i64>,
    pub height: Option<i64>,
    pub size_bytes: Option<i64>,
    pub sha256: Seq<char>,
    pub metadata: Option<Seq<char>>,
}

/// The views of assets.
pub open spec fn assets_view(v: Seq<DocAsset>) -> Seq<AssetView> {
    v.map_values(
        |a: DocAsset|
            AssetView {
                role: a.role@,
                mime_type: a.mime_type@,
                relative_path: a.relative_path@,
                width: a.width,
                height: a.height,
                size_bytes: a.size_bytes,
                sha256: a.sha256@,
                metadata: opt_view(a.metadata),
            },
    )
}

/// What the bundle reads of a document node.
#[derive(Debug)]
pub struct DocNode {
    pub id: i64,
    pub kind: String,
    pub ordinal: i64,
    pub parent_id: Option<i64>,
    pub plain_text: Option<String>,
    /// The level a heading declares.
    pub heading_level: Option<i64>,
    /// The members of the node's payload: each key with its value as JSON text.
    pub payload: Vec<(String, String)>,
    pub math: Option<DocMath>,
    /// The alternative text of a figure.
    pub alt_text: Option<String>,
    pub assets: Vec<DocAsset>,
    /// The page of the node's first region (PDF representations only).
    pub page: Option<i64>,
    /// Where the node came from (`tex_source`, `layout_model`, ...).
    pub origin: Option<String>,
}

/// A node as the bundle shows it: id, kind, and its text clipped to a cap.
#[derive(Debug)]
pub struct ContextNode {
    pub node_id: i64,
    pub kind: String,
    pub text: Option<String>,
    pub text_truncated: bool,
    pub page: Option<i64>,
    pub origin: Option<String>,
    /// The identifiers the payload carries (see [`identifier_keys`]), as JSON text.
    pub identifiers: Vec<(String, String)>,
    pub math: Option<DocMath>,
    pub alt_text: Option<String>,
    pub assets: Vec<DocAsset>,
}

/// The view of a [`ContextNode`].
pub struct ContextNodeView {
    pub node_id: i64,
    pub kind: Seq<char>,
    pub text: Option<Seq<char>>,
    pub text_truncated: bool,
    pub page: Option<i64>,
    pub origin: Option<Seq<char>>,
    pub identifiers: Seq<(Seq<char>, Seq<char>)>,
    pub math: Option<MathView>,
    pub alt_text: Option<Seq<char>>,
    pub assets: Seq<AssetView>,
}

/// The views of shown nodes.
pub open spec fn refs_view(v: Seq<ContextNode>) -> Seq<ContextNodeView> {
    v.map_values(|r: ContextNode| r.view())
}

impl ContextNode {
    /// The node as a value.
    pub open spec fn view(&self) -> ContextNodeView {
        ContextNodeView {
            node_id: self.node_id,
            kind: self.kind@,
            text: opt_view(self.text),
            text_truncated: self.text_truncated,
            page: self.page,
            origin: opt_view(self.origin),
            identifiers: crate::models::pairs_view(self.identifiers@),
            math: math_view(self.math),
            alt_text: opt_view(self.alt_text),
            assets: assets_view(self.assets@),
        }
    }
}

/// `t` cut to `max` chars with `…` appended, and whether it was cut.
pub open spec fn clip_spec(t: Seq<char>, max: nat) -> (Seq<char>, bool) {
    if t.len() <= max {
        (t, false)
    } else {
        (t.take(max as int).push('…'), true)
    }
}

/// `text` cut to `max` chars (an ellipsis marks the cut), and whether it was cut.
pub fn clip(text: &str, max: usize) -> (r: (String, bool))
    ensures
        r.0@ == clip_spec(text@, max as nat).0,
        r.1 == clip_spec(text@, max as nat).1,
{
    let c = to_chars(text);
    if c.len() <= max {
        return (String::from_str(text), false);
    }
    let mut v: Vec<char> = crate::text::slice_chars(&c, 0, max);
    v.push('…');
    proof {
        assert(v@ =~= c@.take(max as int).push('…'));
    }
    (from_chars(&v), true)
}

/// Node `n` shown with its text capped at `cap`; a node with no text, or an empty
/// one, is shown without text.
pub open spec fn shown(n: DocNode, cap: nat) -> ContextNodeView {
    match n.plain_text {
        Some(t) if t@.len() > 0 => ContextNodeView {
            node_id: n.id,
            kind: n.kind@,
            text: Some(clip_spec(t@, cap).0),
            text_truncated: clip_spec(t@, cap).1,
            page: n.page,
            origin: opt_view(n.origin),
            identifiers: identifiers_of(crate::models::pairs_view(n.payload@), 8),
            math: math_view(n.math),
            alt_text: opt_view(n.alt_text),
            assets: assets_view(n.assets@),
        },
        _ => ContextNodeView {
            node_id: n.id,
            kind: n.kind@,
            text: None,
            text_truncated: false,
            page: n.page,
            origin: opt_view(n.origin),
            identifiers: identifiers_of(crate::models::pairs_view(n.payload@), 8),
            math: math_view(n.math),
            alt_text: opt_view(n.alt_text),
            assets: assets_view(n.assets@),
        },
    }
}

/// The payload keys shown as identifiers, in this order.
pub open spec fn identifier_keys() -> Seq<Seq<char>> {
    seq![
        "theorem_number"@,
        "section_number"@,
        "note"@,
        "labels"@,
        "cite_key"@,
        "figure_number"@,
        "caption_number"@,
        "caption_label"@,
    ]
}

/// The value of the first payload member named `key`.
pub open spec fn payload_get(payload: Seq<(Seq<char>, Seq<char>)>, key: Seq<char>, i: int) -> Option<Seq<char>>
    decreases payload.len() - i,
{
    if i < 0 || i >= payload.len() {
        None
    } else if payload[i].0 == key {
        Some(payload[i].1)
    } else {
        payload_get(payload, key, i + 1)
    }
}

/// The identifiers among the first `m` identifier keys that the payload has, in key order.
pub open spec fn identifiers_of(payload: Seq<(Seq<char>, Seq<char>)>, m: int) -> Seq<(Seq<char>, Seq<char>)>
    decreases m,
{
    if m <= 0 {
        Seq::empty()
    } else {
        let prev = identifiers_of(payload, m - 1);
        match payload_get(payload, identifier_keys()[m - 1], 0) {
            Some(v) => prev.push((identifier_keys()[m - 1], v)),
            None => prev,
        }
    }
}

fn payload_lookup(payload: &Vec<(String, String)>, key: &str) -> (r: Option<String>)
    ensures
        opt_view(r) == payload_get(crate::models::pairs_view(payload@), key@, 0),
{
    let ghost pv = crate::models::pairs_view(payload@);
    let k = to_chars(key);
    let mut i: usize = 0;
    while i < payload.len()
        invariant
            i <= payload.len(),
            pv == crate::models::pairs_view(payload@),
            k@ == key@,
            payload_get(pv, key@, 0) == payload_get(pv, key@, i as int),
        decreases payload.len() - i,
    {
        if crate::text::chars_eq(&to_chars(payload[i].0.as_str()), &k) {
            return Some(payload[i].1.clone());
        }
        i = i + 1;
    }
    None
}

fn identifier_key(m: usize) -> (k: &'static str)
    requires
        m < 8,
    ensures
        k@ == identifier_keys()[m as int],
{
    if m == 0 {
        "theorem_number"
    } else if m == 1 {
        "section_number"
    } else if m == 2 {
        "note"
    } else if m == 3 {
        "labels"
    } else if m == 4 {
        "cite_key"
    } else if m == 5 {
        "figure_number"
    } else if m == 6 {
        "caption_number"
    } else {
        "caption_label"
    }
}

/// The identifiers a node shows from its payload.
pub fn payload_identifiers(payload: &Vec<(String, String)>) -> (r: Vec<(String, String)>)
    ensures
        crate::models::pairs_view(r@) == identifiers_of(crate::models::pairs_view(payload@), 8),
{
    let ghost pv = crate::models::pairs_view(payload@);
    let mut out: Vec<(String, String)> = Vec::new();
    let mut m: usize = 0;
    while m < 8
        invariant
            m <= 8,
            pv == crate::models::pairs_view(payload@),
            crate::models::pairs_view(out@) == identifiers_of(pv, m as int),
        decreases 8 - m,
    {
        let key = identifier_key(m);
        match payload_lookup(payload, key) {
            Some(v) => {
                let ghost before = out@;
                out.push((String::from_str(key), v));
                proof {
                    assert(crate::models::pairs_view(out@) =~= crate::models::pairs_view(before).push((key@, v@)));
                }
            },
            None => {},
        }
        m = m + 1;
    }
    out
}

/// A copy of an optional formula.
pub fn clone_math(m: &Option<DocMath>) -> (r: Option<DocMath>)
    ensures
        math_view(r) == math_view(*m),
{
    match m {
        Some(x) => Some(DocMath {
            display_mode: x.display_mode.clone(),
            equation_label: clone_opt(&x.equation_label),
            latex: clone_opt(&x.latex),
            presentation_mathml: clone_opt(&x.presentation_mathml),
            content_mathml: clone_opt(&x.content_mathml),
            openmath: clone_opt(&x.openmath),
            normalized_text: clone_opt(&x.normalized_text),
            semantic_status: x.semantic_status.clone(),
            origin: clone_opt(&x.origin),
        }),
        None => None,
    }
}

/// A copy of a list of assets.
pub fn clone_assets(v: &Vec<DocAsset>) -> (r: Vec<DocAsset>)
    ensures
        assets_view(r@) == assets_view(v@),
{
    let mut out: Vec<DocAsset> = Vec::new();
    let mut i: usize = 0;
    while i < v.len()
        invariant
            i <= v.len(),
            assets_view(out@) == assets_view(v@.take(i as int)),
        decreases v.len() - i,
    {
        let a = &v[i];
        let ghost before = out@;
        out.push(DocAsset {
            role: a.role.clone(),
            mime_type: a.mime_type.clone(),
            relative_path: a.relative_path.clone(),
            width: a.width,
            height: a.height,
            size_bytes: a.size_bytes,
            sha256: a.sha256.clone(),
            metadata: clone_opt(&a.metadata),
        });
        proof {
            assert(v@.take(i + 1) =~= v@.take(i as int).push(v@[i as int]));
            assert(assets_view(out@) =~= assets_view(before).push(assets_view(v@.take(i + 1)).last()));
            assert(assets_view(v@.take(i + 1)) =~= assets_view(v@.take(i as int)).push(assets_view(v@.take(i + 1)).last()));
        }
        i = i + 1;
    }
    proof {
        assert(v@.take(v.len() as int) =~= v@);
    }
    out
}

/// Shows node `n` with its text capped at `cap`.
pub fn context_node(n: &DocNode, cap: usize) -> (r: ContextNode)
    ensures
        r.view() == shown(*n, cap as nat),
{
    let (text, text_truncated) = match &n.plain_text {
        Some(t) => {
            if t.as_str().unicode_len() > 0 {
                let (s, cut) = clip(t.as_str(), cap);
                (Some(s), cut)
            } else {
                (None, false)
            }
        },
        None => (None, false),
    };
    ContextNode {
        node_id: n.id,
        kind: n.kind.clone(),
        text,
        text_truncated,
        page: n.page,
        origin: clone_opt(&n.origin),
        identifiers: payload_identifiers(&n.payload),
        math: clone_math(&n.math),
        alt_text: clone_opt(&n.alt_text),
        assets: clone_assets(&n.assets),
    }
}

/// The node a given id names: the last one listed with it.
pub open spec fn node_at(nodes: Seq<DocNode>, id: i64) -> Option<int>
    decreases nodes.len(),
{
    if nodes.len() == 0 {
        None
    } else if nodes.last().id == id {
        Some(nodes.len() - 1)
    } else {
        node_at(nodes.drop_last(), id)
    }
}

pub proof fn lemma_node_at(nodes: Seq<DocNode>, id: i64)
    ensures
        match node_at(nodes, id) {
            Some(k) => 0 <= k < nodes.len() && nodes[k].id == id && forall|j: int|
                k < j < nodes.len() ==> nodes[j].id != id,
            None => forall|j: int| 0 <= j < nodes.len() ==> nodes[j].id != id,
        },
    decreases nodes.len(),
{
    if nodes.len() > 0 && nodes.last().id != id {
        lemma_node_at(nodes.drop_last(), id);
        assert forall|j: int| 0 <= j < nodes.len() - 1 implies nodes.drop_last()[j] == nodes[j] by {}
    }
}

/// The position of the node with id `id` (the last one listed with it).
pub fn find_node(nodes: &Vec<DocNode>, id: i64) -> (r: Option<usize>)
    ensures
        match r {
            Some(k) => node_at(nodes@, id) == Some(k as int) && k < nodes.len() && nodes@[k as int].id
                == id,
            None => node_at(nodes@, id) is None,
        },
{
    proof {
        lemma_node_at(nodes@, id);
        assert(nodes@.subrange(0, nodes.len() as int) =~= nodes@);
    }
    let mut i = nodes.len();
    while i > 0
        invariant
            i <= nodes.len(),
            node_at(nodes@, id) == node_at(nodes@.subrange(0, i as int), id),
        decreases i,
    {
        let ghost pre = nodes@.subrange(0, i as int);
        if nodes[i - 1].id == id {
            return Some(i - 1);
        }
        proof {
            assert(pre.drop_last() =~= nodes@.subrange(0, i - 1));
        }
        i = i - 1;
    }
    None
}

/// A node's text is absent or blank.
pub open spec fn blank_text(n: DocNode) -> bool {
    match n.plain_text {
        Some(t) => trim_spec(t@).len() == 0,
        None => true,
    }
}

fn is_blank_text(n: &DocNode) -> (r: bool)
    ensures
        r == blank_text(*n),
{
    match &n.plain_text {
        Some(t) => trim_chars(&to_chars(t.as_str())).len() == 0,
        None => true,
    }
}

// ── the blocks before the focus ───────────────────────────────────────────

/// Scanning back from position `i` (exclusive) of the reading order, with room
/// for `room` more blocks: blocks without text are passed over, the first
/// structural boundary is taken and ends the scan. Nearest first.
pub open spec fn before_scan(seq: Seq<i64>, nodes: Seq<DocNode>, i: int, room: nat) -> Seq<
    ContextNodeView,
>
    decreases i,
{
    if i <= 0 || room == 0 {
        Seq::empty()
    } else {
        match node_at(nodes, seq[i - 1]) {
            None => before_scan(seq, nodes, i - 1, room),
            Some(k) => {
                let n = nodes[k];
                if blank_text(n) {
                    before_scan(seq, nodes, i - 1, room)
                } else if is_boundary(n.kind@, n.heading_level) {
                    seq![shown(n, BEFORE_TEXT_CAP as nat)]
                } else {
                    seq![shown(n, BEFORE_TEXT_CAP as nat)] + before_scan(
                        seq,
                        nodes,
                        i - 1,
                        (room - 1) as nat,
                    )
                }
            },
        }
    }
}

/// The blocks read before the focus at `focus_pos` of the reading order `seq`, in
/// reading order: at most `max`, blocks without text skipped, stopping after the
/// first structural boundary.
pub fn collect_before(seq: &Vec<i64>, nodes: &Vec<DocNode>, focus_pos: usize, max: usize) -> (r:
    Vec<ContextNode>)
    requires
        focus_pos <= seq.len(),
    ensures
        refs_view(r@) == before_scan(seq@, nodes@, focus_pos as int, max as nat).reverse(),
{
    let ghost whole = before_scan(seq@, nodes@, focus_pos as int, max as nat);
    let mut picked: Vec<usize> = Vec::new();
    let mut i = focus_pos;
    loop
        invariant_except_break
            picked@.map_values(|k: usize| shown(nodes@[k as int], BEFORE_TEXT_CAP as nat))
                + before_scan(seq@, nodes@, i as int, (max - picked.len()) as nat) == whole,
        invariant
            i <= focus_pos <= seq.len(),
            picked.len() <= max,
            forall|j: int| 0 <= j < picked.len() ==> (#[trigger] picked@[j]) < nodes.len(),
        ensures
            picked@.map_values(|k: usize| shown(nodes@[k as int], BEFORE_TEXT_CAP as nat)) == whole,
        decreases i,
    {
        let ghost pv = picked@.map_values(|k: usize| shown(nodes@[k as int], BEFORE_TEXT_CAP as nat));
        if i == 0 || picked.len() >= max {
            proof {
                assert(pv + Seq::<ContextNodeView>::empty() =~= pv);
            }
            break ;
        }
        i = i - 1;
        let ghost room = (max - picked.len()) as nat;
        match find_node(nodes, seq[i]) {
            None => {},
            Some(k) => {
                let n = &nodes[k];
                if !is_blank_text(n) {
                    let boundary = is_structural_boundary(n.kind.as_str(), n.heading_level);
                    picked.push(k);
                    let ghost pv2 = picked@.map_values(|k: usize| shown(nodes@[k as int], BEFORE_TEXT_CAP as nat));
                    proof {
                        assert(pv2 =~= pv.push(shown(nodes@[k as int], BEFORE_TEXT_CAP as nat)));
                    }
                    if boundary {
                        proof {
                            assert(pv2 =~= pv + seq![shown(nodes@[k as int], BEFORE_TEXT_CAP as nat)]);
                        }
                        break ;
                    }
                    proof {
                        assert(pv + before_scan(seq@, nodes@, i + 1, room) =~= pv2 + before_scan(
                            seq@,
                            nodes@,
                            i as int,
                            (room - 1) as nat,
                        ));
                    }
                }
            },
        }
    }
    let n = picked.len();
    let mut out: Vec<ContextNode> = Vec::new();
    let mut j: usize = 0;
    while j < n
        invariant
            n == picked.len(),
            j <= n,
            forall|q: int| 0 <= q < picked.len() ==> (#[trigger] picked@[q]) < nodes.len(),
            picked@.map_values(|k: usize| shown(nodes@[k as int], BEFORE_TEXT_CAP as nat)) == whole,
            out.len() == j,
            forall|m: int| 0 <= m < j ==> (#[trigger] out@[m]).view() == whole[n - 1 - m],
        decreases n - j,
    {
        let k = picked[n - 1 - j];
        out.push(context_node(&nodes[k], BEFORE_TEXT_CAP));
        j = j + 1;
    }
    proof {
        assert(refs_view(out@) =~= whole.reverse());
    }
    out
}

// ── the blocks that continue the focus ────────────────────────────────────

/// Length of an optional text.
pub open spec fn opt_len(o: Option<String>) -> nat {
    match o {
        Some(t) => t@.len(),
        None => 0,
    }
}

/// What a shown node weighs against the continuation's budget: its shown text,
/// its formula's LaTeX and surface text, and its alternative text.
pub open spec fn weight(n: DocNode, r: ContextNodeView) -> nat {
    (match r.text {
        Some(t) => t.len(),
        None => 0,
    }) + math_len(n.math) + opt_len(n.alt_text)
}

/// Length of a formula's LaTeX and surface text.
pub open spec fn math_len(m: Option<DocMath>) -> nat {
    match m {
        Some(x) => opt_len(x.latex) + opt_len(x.normalized_text),
        None => 0,
    }
}

/// `a`, or the largest `usize` when it is larger.
pub open spec fn capped(a: nat) -> usize {
    if a > usize::MAX {
        usize::MAX
    } else {
        a as usize
    }
}

fn opt_len_exec(o: &Option<String>) -> (r: usize)
    ensures
        r == opt_len(*o),
{
    match o {
        Some(t) => t.as_str().unicode_len(),
        None => 0,
    }
}

/// The weight of node `n` shown as `r` (the largest `usize` when it is larger).
pub fn node_weight(n: &DocNode, r: &ContextNode) -> (w: usize)
    ensures
        w == capped(weight(*n, r.view())),
{
    let t = opt_len_exec(&r.text);
    let (a, b) = match &n.math {
        Some(m) => (opt_len_exec(&m.latex), opt_len_exec(&m.normalized_text)),
        None => (0, 0),
    };
    let c = opt_len_exec(&n.alt_text);
    t.saturating_add(a).saturating_add(b).saturating_add(c)
}

/// A stop at boundary node `n`.
pub open spec fn boundary_stop(n: DocNode) -> StopView {
    StopView { reason: "boundary"@, node_id: Some(n.id), kind: Some(n.kind@) }
}

/// Scanning forward from position `i` of the reading order after `taken` blocks
/// and `spent` characters: the blocks that continue the focus, and where and why
/// the scan stopped (a boundary, a limit, or the end of the document).
pub open spec fn cont_scan(
    seq: Seq<i64>,
    nodes: Seq<DocNode>,
    i: int,
    taken: nat,
    spent: nat,
    opts: ContextOptions,
) -> (Seq<ContextNodeView>, StopView)
    decreases seq.len() - i,
{
    if i < 0 || i >= seq.len() {
        (Seq::empty(), limit_stop("end_of_document"@))
    } else {
        match node_at(nodes, seq[i]) {
            None => cont_scan(seq, nodes, i + 1, taken, spent, opts),
            Some(k) => {
                let n = nodes[k];
                if is_boundary(n.kind@, n.heading_level) {
                    (Seq::empty(), boundary_stop(n))
                } else if taken >= opts.max_continuation {
                    (Seq::empty(), limit_stop("max_continuation"@))
                } else if spent >= opts.max_continuation_chars {
                    (Seq::empty(), limit_stop("max_continuation_chars"@))
                } else {
                    let r = shown(n, (opts.max_continuation_chars - spent) as nat);
                    if r.text_truncated {
                        (seq![r], limit_stop("max_continuation_chars"@))
                    } else {
                        let rest = cont_scan(seq, nodes, i + 1, taken + 1, spent + weight(n, r), opts);
                        (seq![r] + rest.0, rest.1)
                    }
                }
            },
        }
    }
}

/// The blocks after the focus at `focus_pos`, in reading order up to the next
/// structural boundary (across pages), within `max_continuation` blocks and
/// `max_continuation_chars` characters, and where and why they stop.
pub fn collect_continuation(
    seq: &Vec<i64>,
    nodes: &Vec<DocNode>,
    focus_pos: usize,
    opts: &ContextOptions,
) -> (r: (Vec<ContextNode>, ContinuationStop))
    requires
        focus_pos < seq.len(),
    ensures
        refs_view(r.0@) == cont_scan(seq@, nodes@, focus_pos + 1, 0, 0, *opts).0,
        r.1.view() == cont_scan(seq@, nodes@, focus_pos + 1, 0, 0, *opts).1,
{
    let ghost whole = cont_scan(seq@, nodes@, focus_pos + 1, 0, 0, *opts);
    let mut out: Vec<ContextNode> = Vec::new();
    let mut spent: usize = 0;
    let ghost mut spent_s: nat = 0;
    let mut i = focus_pos + 1;
    while i < seq.len()
        invariant
            focus_pos < i <= seq.len(),
            whole == cont_scan(seq@, nodes@, focus_pos + 1, 0, 0, *opts),
            spent == capped(spent_s),
            refs_view(out@) + cont_scan(seq@, nodes@, i as int, out.len() as nat, spent_s, *opts).0
                == whole.0,
            cont_scan(seq@, nodes@, i as int, out.len() as nat, spent_s, *opts).1 == whole.1,
        decreases seq.len() - i,
    {
        let ghost ov = refs_view(out@);
        match find_node(nodes, seq[i]) {
            None => {
                i = i + 1;
            },
            Some(k) => {
                let n = &nodes[k];
                if is_structural_boundary(n.kind.as_str(), n.heading_level) {
                    proof {
                        assert(node_at(nodes@, seq@[i as int]) == Some(k as int));
                        assert(is_boundary(nodes@[k as int].kind@, nodes@[k as int].heading_level));
                        assert(cont_scan(seq@, nodes@, i as int, out.len() as nat, spent_s, *opts).0
                            == Seq::<ContextNodeView>::empty());
                        assert(ov + Seq::<ContextNodeView>::empty() =~= ov);
                    }
                    let stop = ContinuationStop {
                        reason: String::from_str("boundary"),
                        node_id: Some(n.id),
                        kind: Some(n.kind.clone()),
                    };
                    return (out, stop);
                }
                if out.len() >= opts.max_continuation {
                    proof {
                        assert(ov + Seq::<ContextNodeView>::empty() =~= ov);
                    }
                    return (out, ContinuationStop::limit("max_continuation"));
                }
                let remaining = opts.max_continuation_chars.saturating_sub(spent);
                if remaining == 0 {
                    proof {
                        assert(spent_s >= opts.max_continuation_chars);
                        assert(cont_scan(seq@, nodes@, i as int, out.len() as nat, spent_s, *opts).0
                            == Seq::<ContextNodeView>::empty());
                        assert(ov + Seq::<ContextNodeView>::empty() =~= ov);
                    }
                    return (out, ContinuationStop::limit("max_continuation_chars"));
                }
                let node = context_node(n, remaining);
                let w = node_weight(n, &node);
                let cut = node.text_truncated;
                let ghost rv = node.view();
                proof {
                    spent_s = spent_s + weight(nodes@[k as int], rv);
                }
                spent = spent.saturating_add(w);
                out.push(node);
                proof {
                    assert(refs_view(out@) =~= ov.push(rv));
                }
                if cut {
                    proof {
                        assert(refs_view(out@) =~= ov + seq![rv]);
                    }
                    return (out, ContinuationStop::limit("max_continuation_chars"));
                }
                proof {
                    assert(refs_view(out@) + cont_scan(seq@, nodes@, i + 1, out.len() as nat, spent_s, *opts).0
                        =~= ov + (seq![rv] + cont_scan(seq@, nodes@, i + 1, out.len() as nat, spent_s, *opts).0));
                }
                i = i + 1;
            },
        }
    }
    proof {
        assert(refs_view(out@) + Seq::<ContextNodeView>::empty() =~= refs_view(out@));
    }
    (out, ContinuationStop::limit("end_of_document"))
}

// ── the headings enclosing the focus ──────────────────────────────────────

/// Scanning back from position `i` (exclusive): each heading whose declared
/// level is strictly below every level taken so far, up to `room` of them.
/// Nearest first.
pub open spec fn section_scan(
    seq: Seq<i64>,
    nodes: Seq<DocNode>,
    i: int,
    min_level: int,
    room: nat,
) -> Seq<ContextNodeView>
    decreases i,
{
    if i <= 0 || room == 0 {
        Seq::empty()
    } else {
        match node_at(nodes, seq[i - 1]) {
            None => section_scan(seq, nodes, i - 1, min_level, room),
            Some(k) => {
                let n = nodes[k];
                match heading_level_spec(n.kind@, n.heading_level) {
                    None => section_scan(seq, nodes, i - 1, min_level, room),
                    Some(l) => if l < min_level {
                        seq![shown(n, RELATED_TEXT_CAP as nat)] + section_scan(
                            seq,
                            nodes,
                            i - 1,
                            l as int,
                            (room - 1) as nat,
                        )
                    } else {
                        section_scan(seq, nodes, i - 1, min_level, room)
                    },
                }
            },
        }
    }
}

/// The headings enclosing the focus at `focus_pos`, outermost first: scanning
/// back in reading order, each heading that declares a level strictly below all
/// taken so far, at most four.
pub fn collect_section_path(seq: &Vec<i64>, nodes: &Vec<DocNode>, focus_pos: usize) -> (r: Vec<
    ContextNode,
>)
    requires
        focus_pos <= seq.len(),
    ensures
        refs_view(r@) == section_scan(seq@, nodes@, focus_pos as int, i64::MAX as int, 4).reverse(),
{
    let ghost whole = section_scan(seq@, nodes@, focus_pos as int, i64::MAX as int, 4);
    let mut picked: Vec<usize> = Vec::new();
    let mut min_level: i64 = i64::MAX;
    let mut i = focus_pos;
    while i > 0 && picked.len() < 4
        invariant
            i <= focus_pos <= seq.len(),
            picked.len() <= 4,
            forall|j: int| 0 <= j < picked.len() ==> (#[trigger] picked@[j]) < nodes.len(),
            picked@.map_values(|k: usize| shown(nodes@[k as int], RELATED_TEXT_CAP as nat))
                + section_scan(seq@, nodes@, i as int, min_level as int, (4 - picked.len()) as nat)
                == whole,
        decreases i,
    {
        let ghost pv = picked@.map_values(|k: usize| shown(nodes@[k as int], RELATED_TEXT_CAP as nat));
        let ghost room = (4 - picked.len()) as nat;
        i = i - 1;
        match find_node(nodes, seq[i]) {
            None => {},
            Some(k) => {
                let n = &nodes[k];
                match heading_level_of(n.kind.as_str(), n.heading_level) {
                    None => {},
                    Some(level) => {
                        if level < min_level {
                            let ghost old_min = min_level;
                            min_level = level;
                            picked.push(k);
                            proof {
                                let pv2 = picked@.map_values(|k: usize| shown(nodes@[k as int], RELATED_TEXT_CAP as nat));
                                assert(pv2 =~= pv.push(shown(nodes@[k as int], RELATED_TEXT_CAP as nat)));
                                assert(pv + section_scan(seq@, nodes@, i + 1, old_min as int, room) =~= pv2
                                    + section_scan(seq@, nodes@, i as int, level as int, (room - 1) as nat));
                            }
                        }
                    },
                }
            },
        }
    }
    proof {
        let pv = picked@.map_values(|k: usize| shown(nodes@[k as int], RELATED_TEXT_CAP as nat));
        assert(pv + Seq::<ContextNodeView>::empty() =~= pv);
    }
    let n = picked.len();
    let mut out: Vec<ContextNode> = Vec::new();
    let mut j: usize = 0;
    while j < n
        invariant
            n == picked.len(),
            j <= n,
            forall|q: int| 0 <= q < picked.len() ==> (#[trigger] picked@[q]) < nodes.len(),
            picked@.map_values(|k: usize| shown(nodes@[k as int], RELATED_TEXT_CAP as nat)) == whole,
            out.len() == j,
            forall|m: int| 0 <= m < j ==> (#[trigger] out@[m]).view() == whole[n - 1 - m],
        decreases n - j,
    {
        let k = picked[n - 1 - j];
        out.push(context_node(&nodes[k], RELATED_TEXT_CAP));
        j = j + 1;
    }
    proof {
        assert(refs_view(out@) =~= whole.reverse());
    }
    out
}


} // verus!
