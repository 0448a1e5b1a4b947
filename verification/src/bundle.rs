//! The context bundle of one node of a document: the focus, the blocks around
//! it in reading order, the relations that leave it (or its continuation) or
//! prove it, the definitions it rests on, and notes on what did not reach it.

use std::collections::HashMap;

use vstd::prelude::*;

use crate::context::{
    collect_before, collect_continuation, collect_section_path, before_scan, cont_scan, section_scan,
    refs_view, raised_upto, ContextNote, ContextNoteCode, ContextOptions, ContinuationStop, NoteSet,
    StopView, DocNode, FOCUS_TEXT_CAP, ContextNode, ContextNodeView, context_node, is_content_block, is_content_kind, is_float_entity,
    is_strict_theorem, node_at, shown, PREMISE_TEXT_CAP, RELATED_TEXT_CAP,
};
use crate::reading::{
    id_index, id_map, lemma_reading_order_ignores_listing_order, lemma_reading_order_lists_every_node,
    lemma_relisted_node_at, lookup, node_ids_unique, reading_order, reading_order_spec, relisted,
};
use crate::models::{clone_opt, opt_view};
use crate::order::{chars_lt, seq_lt};
use crate::text::{contains_chars, contains_seq, is_lit, push_all, to_chars};

verus! {

// ── the document ──────────────────────────────────────────────────────────

/// A relation between two nodes.
#[derive(Debug)]
pub struct DocRelation {
    pub from_node_id: i64,
    pub to_node_id: i64,
    pub relation_type: String,
    /// How a figure or table reference was resolved (`node` or `caption`), when recorded.
    pub resolved_via: Option<String>,
}

/// A symbol of a document and where it is defined and occurs.
#[derive(Debug)]
pub struct DocSymbol {
    pub surface_form: String,
    pub normalized_form: Option<String>,
    pub description: Option<String>,
    pub symbol_type: Option<String>,
    pub origin: Option<String>,
    pub defined_at_node_id: Option<i64>,
    /// The nodes at which an occurrence of the symbol is recorded.
    pub occurrence_node_ids: Vec<i64>,
}

/// A document version: its nodes, relations and symbols.
#[derive(Debug)]
pub struct Document {
    pub version_id: i64,
    pub nodes: Vec<DocNode>,
    pub relations: Vec<DocRelation>,
    pub symbols: Vec<DocSymbol>,
}

// ── the content blocks in reading order ───────────────────────────────────

/// The id names a node of a content kind.
pub open spec fn is_content_id(nodes: Seq<DocNode>, id: i64) -> bool {
    match node_at(nodes, id) {
        Some(k) => is_content_kind(nodes[k].kind@),
        None => false,
    }
}

/// The ids of `s` that name content blocks, in order.
pub open spec fn content_ids(nodes: Seq<DocNode>, s: Seq<i64>) -> Seq<i64>
    decreases s.len(),
{
    if s.len() == 0 {
        Seq::empty()
    } else if is_content_id(nodes, s.last()) {
        content_ids(nodes, s.drop_last()).push(s.last())
    } else {
        content_ids(nodes, s.drop_last())
    }
}

/// The content blocks of a document in reading order.
pub open spec fn content_order(nodes: Seq<DocNode>) -> Seq<i64> {
    content_ids(nodes, reading_order_spec(nodes))
}

/// The last position of `id` in `s`.
pub open spec fn last_pos(s: Seq<i64>, id: i64) -> Option<int>
    decreases s.len(),
{
    if s.len() == 0 {
        None
    } else if s.last() == id {
        Some(s.len() - 1)
    } else {
        last_pos(s.drop_last(), id)
    }
}

proof fn lemma_last_pos(s: Seq<i64>, id: i64)
    ensures
        match last_pos(s, id) {
            Some(p) => 0 <= p < s.len() && s[p] == id,
            None => !s.contains(id),
        },
    decreases s.len(),
{
    if s.len() > 0 && s.last() != id {
        lemma_last_pos(s.drop_last(), id);
        if s.contains(id) {
            let k = choose|k: int| 0 <= k < s.len() && s[k] == id;
            assert(s.drop_last()[k] == id);
        }
    }
}

/// The last position of `id` in `s`.
pub fn find_last(s: &Vec<i64>, id: i64) -> (r: Option<usize>)
    ensures
        match r {
            Some(p) => last_pos(s@, id) == Some(p as int),
            None => last_pos(s@, id) is None,
        },
{
    let mut i = s.len();
    proof {
        assert(s@.subrange(0, i as int) =~= s@);
    }
    while i > 0
        invariant
            i <= s.len(),
            last_pos(s@, id) == last_pos(s@.subrange(0, i as int), id),
        decreases i,
    {
        let ghost pre = s@.subrange(0, i as int);
        if s[i - 1] == id {
            return Some(i - 1);
        }
        proof {
            assert(pre.drop_last() =~= s@.subrange(0, i - 1));
        }
        i = i - 1;
    }
    None
}

/// Whether `v` holds `x`.
pub fn has_id(v: &Vec<i64>, x: i64) -> (r: bool)
    ensures
        r == v@.contains(x),
{
    let mut i: usize = 0;
    while i < v.len()
        invariant
            i <= v.len(),
            forall|q: int| 0 <= q < i ==> v@[q] != x,
        decreases v.len() - i,
    {
        if v[i] == x {
            return true;
        }
        i = i + 1;
    }
    false
}

/// The content blocks of the document in reading order.
pub fn content_sequence(nodes: &Vec<DocNode>, index: &HashMap<i64, usize>) -> (seq: Vec<i64>)
    requires
        index@ == id_map(nodes@),
    ensures
        seq@ == content_order(nodes@),
{
    let order = reading_order(nodes);
    let mut out: Vec<i64> = Vec::new();
    let mut i: usize = 0;
    proof {
        assert(order@.take(0) =~= Seq::<i64>::empty());
    }
    while i < order.len()
        invariant
            i <= order.len(),
            index@ == id_map(nodes@),
            out@ == content_ids(nodes@, order@.take(i as int)),
        decreases order.len() - i,
    {
        let id = order[i];
        let keep = match lookup(index, nodes, id) {
            Some(k) => is_content_block(nodes[k].kind.as_str()),
            None => false,
        };
        proof {
            assert(order@.take(i + 1).drop_last() =~= order@.take(i as int));
            assert(order@.take(i + 1).last() == id);
        }
        if keep {
            out.push(id);
        }
        i = i + 1;
    }
    proof {
        assert(order@.take(order.len() as int) =~= order@);
    }
    out
}

// ── routing the relations ─────────────────────────────────────────────────

/// A relation taken into the bundle: its position among the relations, the id
/// it is listed from, and the node it reaches (position and id).
#[derive(Clone, Copy, Debug)]
pub struct Hit {
    pub rel: usize,
    pub from: i64,
    pub target: usize,
    pub target_id: i64,
}

/// A figure or table reference, with the region and the caption it resolves to.
#[derive(Clone, Copy, Debug)]
pub struct FloatHit {
    pub hit: Hit,
    pub entity: Option<usize>,
    pub caption: Option<usize>,
}

/// Where one relation goes in the bundle.
pub enum Route {
    Skip,
    /// A proof of the focus.
    Proof(Hit),
    /// What the focus (or its continuation) proves.
    Proves(Hit),
    Equation(Hit),
    /// A figure or table reference; the flag marks one that misses its region.
    Figure(FloatHit, bool),
    Citation(Hit),
    Reference(Hit),
}

/// The region a caption belongs to: the target of the first `caption_of`
/// relation from it, at or after `t`.
pub open spec fn caption_entity(rels: Seq<DocRelation>, id: i64, t: int) -> Option<i64>
    decreases rels.len() - t,
{
    if t < 0 || t >= rels.len() {
        None
    } else if rels[t].relation_type@ == "caption_of"@ && rels[t].from_node_id == id {
        Some(rels[t].to_node_id)
    } else {
        caption_entity(rels, id, t + 1)
    }
}

/// The caption of a region: the source of the first `caption_of` relation to
/// it, at or after `t`.
pub open spec fn entity_caption(rels: Seq<DocRelation>, id: i64, t: int) -> Option<i64>
    decreases rels.len() - t,
{
    if t < 0 || t >= rels.len() {
        None
    } else if rels[t].relation_type@ == "caption_of"@ && rels[t].to_node_id == id {
        Some(rels[t].from_node_id)
    } else {
        entity_caption(rels, id, t + 1)
    }
}

/// The position of the node an optional id names.
pub open spec fn pick(nodes: Seq<DocNode>, id: Option<i64>) -> Option<usize> {
    match id {
        Some(i) => match node_at(nodes, i) {
            Some(k) => Some(k as usize),
            None => None,
        },
        None => None,
    }
}

/// A figure or table kind.
pub open spec fn is_float_kind(kind: Seq<char>) -> bool {
    kind == "figure"@ || kind == "table"@
}

/// The reference of relation `t`, listed from `from`, to the node at `target`,
/// resolved one `caption_of` step to a region and a caption.
pub open spec fn float_hit(nodes: Seq<DocNode>, rels: Seq<DocRelation>, t: int, from: i64, target: int) -> FloatHit {
    let tn = nodes[target];
    let h = Hit { rel: t as usize, from, target: target as usize, target_id: tn.id };
    if is_float_kind(tn.kind@) {
        FloatHit { hit: h, entity: pick(nodes, Some(tn.id)), caption: pick(nodes, entity_caption(rels, tn.id, 0)) }
    } else {
        FloatHit { hit: h, entity: pick(nodes, caption_entity(rels, tn.id, 0)), caption: pick(nodes, Some(tn.id)) }
    }
}

/// Where relation `t` goes, for the focus `focus` and the origin ids `origin`
/// (the focus and its continuation): a `proves` into the focus is a proof; a
/// `caption_of` into the origin is a figure of it; any other relation counts
/// only when it leaves the origin and reaches a node, and goes by its type.
pub open spec fn route(nodes: Seq<DocNode>, rels: Seq<DocRelation>, origin: Seq<i64>, focus: i64, t: int) -> Route {
    let r = rels[t];
    let ty = r.relation_type@;
    if ty == "proves"@ && r.to_node_id == focus {
        match node_at(nodes, r.from_node_id) {
            Some(k) => Route::Proof(Hit { rel: t as usize, from: r.to_node_id, target: k as usize, target_id: nodes[k].id }),
            None => Route::Skip,
        }
    } else if ty == "caption_of"@ && origin.contains(r.to_node_id) {
        match node_at(nodes, r.to_node_id) {
            Some(e) => if node_at(nodes, r.from_node_id) is Some {
                Route::Figure(float_hit(nodes, rels, t, r.from_node_id, e), false)
            } else {
                Route::Skip
            },
            None => Route::Skip,
        }
    } else if !origin.contains(r.from_node_id) {
        Route::Skip
    } else {
        match node_at(nodes, r.to_node_id) {
            None => Route::Skip,
            Some(k) => {
                let h = Hit { rel: t as usize, from: r.from_node_id, target: k as usize, target_id: nodes[k].id };
                if ty == "proves"@ {
                    Route::Proves(h)
                } else if ty == "refers_to_equation"@ {
                    Route::Equation(h)
                } else if ty == "cites"@ {
                    Route::Citation(h)
                } else if ty == "refers_to_figure"@ || ty == "refers_to_table"@ || ty == "caption_of"@ {
                    let f = float_hit(nodes, rels, t, r.from_node_id, k);
                    Route::Figure(f, f.entity is None)
                } else {
                    Route::Reference(h)
                }
            },
        }
    }
}

/// The relation lists (in relation order) and the two routing notes.
pub struct Routed {
    pub proofs: Seq<Hit>,
    pub proves: Seq<Hit>,
    pub equations: Seq<Hit>,
    pub figures: Seq<FloatHit>,
    pub citations: Seq<Hit>,
    pub references: Seq<Hit>,
    /// A `proves` reaches something other than a theorem, lemma, proposition or corollary.
    pub proves_note: bool,
    /// A figure or table reference misses its region.
    pub float_note: bool,
}

/// A theorem, lemma, proposition or corollary.
pub open spec fn is_strict_theorem_kind(kind: Seq<char>) -> bool {
    kind == "theorem"@ || kind == "lemma"@ || kind == "proposition"@ || kind == "corollary"@
}

/// The first `m` relations routed.
pub open spec fn routed(nodes: Seq<DocNode>, rels: Seq<DocRelation>, origin: Seq<i64>, focus: i64, m: int) -> Routed
    decreases m,
{
    if m <= 0 {
        Routed {
            proofs: Seq::empty(),
            proves: Seq::empty(),
            equations: Seq::empty(),
            figures: Seq::empty(),
            citations: Seq::empty(),
            references: Seq::empty(),
            proves_note: false,
            float_note: false,
        }
    } else {
        let p = routed(nodes, rels, origin, focus, m - 1);
        match route(nodes, rels, origin, focus, m - 1) {
            Route::Skip => p,
            Route::Proof(h) => Routed { proofs: p.proofs.push(h), ..p },
            Route::Proves(h) => Routed {
                proves: p.proves.push(h),
                proves_note: p.proves_note || !is_strict_theorem_kind(nodes[h.target as int].kind@),
                ..p
            },
            Route::Equation(h) => Routed { equations: p.equations.push(h), ..p },
            Route::Figure(f, flag) => Routed { figures: p.figures.push(f), float_note: p.float_note || flag, ..p },
            Route::Citation(h) => Routed { citations: p.citations.push(h), ..p },
            Route::Reference(h) => Routed { references: p.references.push(h), ..p },
        }
    }
}

fn find_caption_entity(rels: &Vec<DocRelation>, id: i64) -> (r: Option<i64>)
    ensures
        r == caption_entity(rels@, id, 0),
{
    let mut t: usize = 0;
    while t < rels.len()
        invariant
            t <= rels.len(),
            caption_entity(rels@, id, 0) == caption_entity(rels@, id, t as int),
        decreases rels.len() - t,
    {
        let r = &rels[t];
        if is_lit(&to_chars(r.relation_type.as_str()), "caption_of") && r.from_node_id == id {
            return Some(r.to_node_id);
        }
        t = t + 1;
    }
    None
}

fn find_entity_caption(rels: &Vec<DocRelation>, id: i64) -> (r: Option<i64>)
    ensures
        r == entity_caption(rels@, id, 0),
{
    let mut t: usize = 0;
    while t < rels.len()
        invariant
            t <= rels.len(),
            entity_caption(rels@, id, 0) == entity_caption(rels@, id, t as int),
        decreases rels.len() - t,
    {
        let r = &rels[t];
        if is_lit(&to_chars(r.relation_type.as_str()), "caption_of") && r.to_node_id == id {
            return Some(r.from_node_id);
        }
        t = t + 1;
    }
    None
}

fn pick_node(nodes: &Vec<DocNode>, index: &HashMap<i64, usize>, id: Option<i64>) -> (r: Option<usize>)
    requires
        index@ == id_map(nodes@),
    ensures
        r == pick(nodes@, id),
        match r {
            Some(k) => k < nodes.len(),
            None => true,
        },
{
    match id {
        Some(i) => {
            let r = lookup(index, nodes, i);
            proof {
                crate::context::lemma_node_at(nodes@, i);
            }
            r
        },
        None => None,
    }
}

fn float_ref(
    nodes: &Vec<DocNode>,
    index: &HashMap<i64, usize>,
    rels: &Vec<DocRelation>,
    t: usize,
    from: i64,
    target: usize,
) -> (f: FloatHit)
    requires
        index@ == id_map(nodes@),
        target < nodes.len(),
    ensures
        f == float_hit(nodes@, rels@, t as int, from, target as int),
        match f.entity {
            Some(k) => k < nodes.len(),
            None => true,
        },
        match f.caption {
            Some(k) => k < nodes.len(),
            None => true,
        },
        f.hit.target < nodes.len(),
{
    let tn = &nodes[target];
    let h = Hit { rel: t, from, target, target_id: tn.id };
    if is_float_entity(tn.kind.as_str()) {
        let c = find_entity_caption(rels, tn.id);
        FloatHit { hit: h, entity: pick_node(nodes, index, Some(tn.id)), caption: pick_node(nodes, index, c) }
    } else {
        let e = find_caption_entity(rels, tn.id);
        FloatHit { hit: h, entity: pick_node(nodes, index, e), caption: pick_node(nodes, index, Some(tn.id)) }
    }
}

fn route_of(
    nodes: &Vec<DocNode>,
    index: &HashMap<i64, usize>,
    rels: &Vec<DocRelation>,
    origin: &Vec<i64>,
    focus: i64,
    t: usize,
) -> (r: Route)
    requires
        index@ == id_map(nodes@),
        t < rels.len(),
    ensures
        r == route(nodes@, rels@, origin@, focus, t as int),
        match r {
            Route::Skip => true,
            Route::Proof(h) => h.target < nodes.len(),
            Route::Proves(h) => h.target < nodes.len(),
            Route::Equation(h) => h.target < nodes.len(),
            Route::Figure(f, _) => f.hit.target < nodes.len() && (match f.entity {
                Some(k) => k < nodes.len(),
                None => true,
            }) && (match f.caption {
                Some(k) => k < nodes.len(),
                None => true,
            }),
            Route::Citation(h) => h.target < nodes.len(),
            Route::Reference(h) => h.target < nodes.len(),
        },
{
    let r = &rels[t];
    let ty = to_chars(r.relation_type.as_str());
    if is_lit(&ty, "proves") && r.to_node_id == focus {
        return match lookup(index, nodes, r.from_node_id) {
            Some(k) => Route::Proof(Hit { rel: t, from: r.to_node_id, target: k, target_id: nodes[k].id }),
            None => Route::Skip,
        };
    }
    if is_lit(&ty, "caption_of") && has_id(origin, r.to_node_id) {
        return match lookup(index, nodes, r.to_node_id) {
            Some(e) => {
                if lookup(index, nodes, r.from_node_id).is_some() {
                    Route::Figure(float_ref(nodes, index, rels, t, r.from_node_id, e), false)
                } else {
                    Route::Skip
                }
            },
            None => Route::Skip,
        };
    }
    if !has_id(origin, r.from_node_id) {
        return Route::Skip;
    }
    match lookup(index, nodes, r.to_node_id) {
        None => Route::Skip,
        Some(k) => {
            let h = Hit { rel: t, from: r.from_node_id, target: k, target_id: nodes[k].id };
            if is_lit(&ty, "proves") {
                Route::Proves(h)
            } else if is_lit(&ty, "refers_to_equation") {
                Route::Equation(h)
            } else if is_lit(&ty, "cites") {
                Route::Citation(h)
            } else if is_lit(&ty, "refers_to_figure") || is_lit(&ty, "refers_to_table") || is_lit(&ty, "caption_of") {
                let f = float_ref(nodes, index, rels, t, r.from_node_id, k);
                let missing = f.entity.is_none();
                Route::Figure(f, missing)
            } else {
                Route::Reference(h)
            }
        },
    }
}

/// Hits whose targets are nodes of the document.
pub open spec fn hits_ok(v: Seq<Hit>, n: nat, nr: nat) -> bool {
    forall|q: int| 0 <= q < v.len() ==> (#[trigger] v[q]).target < n && v[q].rel < nr
}

/// Every item of `r` is an item of `s`.
pub open spec fn drawn_from<T>(r: Seq<T>, s: Seq<T>) -> bool {
    forall|q: int| 0 <= q < r.len() ==> exists|j: int| 0 <= j < s.len() && #[trigger] r[q] == s[j]
}

proof fn lemma_hits_drawn(r: Seq<Hit>, s: Seq<Hit>, n: nat, nr: nat)
    requires
        hits_ok(s, n, nr),
        drawn_from(r, s),
    ensures
        hits_ok(r, n, nr),
{
    assert forall|q: int| 0 <= q < r.len() implies (#[trigger] r[q]).target < n && r[q].rel < nr by {
        let j = choose|j: int| 0 <= j < s.len() && r[q] == s[j];
        assert(s[j].target < n);
    }
}

proof fn lemma_floats_drawn(r: Seq<FloatHit>, s: Seq<FloatHit>, n: nat, nr: nat)
    requires
        floats_ok(s, n, nr),
        drawn_from(r, s),
    ensures
        floats_ok(r, n, nr),
{
    assert forall|q: int| 0 <= q < r.len() implies {
        &&& (#[trigger] r[q]).hit.target < n
        &&& r[q].hit.rel < nr
        &&& match r[q].entity {
            Some(k) => k < n,
            None => true,
        }
        &&& match r[q].caption {
            Some(k) => k < n,
            None => true,
        }
    } by {
        let j = choose|j: int| 0 <= j < s.len() && r[q] == s[j];
        assert(s[j].hit.target < n);
    }
}

/// Figure hits whose targets, regions and captions are nodes of the document.
pub open spec fn floats_ok(v: Seq<FloatHit>, n: nat, nr: nat) -> bool {
    forall|q: int| 0 <= q < v.len() ==> {
        &&& (#[trigger] v[q]).hit.target < n
        &&& v[q].hit.rel < nr
        &&& match v[q].entity {
            Some(k) => k < n,
            None => true,
        }
        &&& match v[q].caption {
            Some(k) => k < n,
            None => true,
        }
    }
}

/// The relation lists of a bundle, in relation order.
pub struct RouteLists {
    pub proofs: Vec<Hit>,
    pub proves: Vec<Hit>,
    pub equations: Vec<Hit>,
    pub figures: Vec<FloatHit>,
    pub citations: Vec<Hit>,
    pub references: Vec<Hit>,
    pub proves_note: bool,
    pub float_note: bool,
}

impl RouteLists {
    /// The lists as values.
    pub open spec fn view(&self) -> Routed {
        Routed {
            proofs: self.proofs@,
            proves: self.proves@,
            equations: self.equations@,
            figures: self.figures@,
            citations: self.citations@,
            references: self.references@,
            proves_note: self.proves_note,
            float_note: self.float_note,
        }
    }

    /// Every hit reaches a node of a document of `n` nodes.
    pub open spec fn ok(&self, n: nat, nr: nat) -> bool {
        &&& hits_ok(self.proofs@, n, nr)
        &&& hits_ok(self.proves@, n, nr)
        &&& hits_ok(self.equations@, n, nr)
        &&& floats_ok(self.figures@, n, nr)
        &&& hits_ok(self.citations@, n, nr)
        &&& hits_ok(self.references@, n, nr)
    }
}

/// Routes every relation of the document for the focus `focus` and the origin
/// ids `origin`.
pub fn route_relations(
    nodes: &Vec<DocNode>,
    index: &HashMap<i64, usize>,
    rels: &Vec<DocRelation>,
    origin: &Vec<i64>,
    focus: i64,
) -> (r: RouteLists)
    requires
        index@ == id_map(nodes@),
    ensures
        r.view() == routed(nodes@, rels@, origin@, focus, rels.len() as int),
        r.ok(nodes.len() as nat, rels.len() as nat),
{
    let mut acc = RouteLists {
        proofs: Vec::new(),
        proves: Vec::new(),
        equations: Vec::new(),
        figures: Vec::new(),
        citations: Vec::new(),
        references: Vec::new(),
        proves_note: false,
        float_note: false,
    };
    let mut t: usize = 0;
    proof {
        assert(acc.view() == routed(nodes@, rels@, origin@, focus, 0)) by {
            assert(acc.proofs@ =~= Seq::<Hit>::empty());
            assert(acc.proves@ =~= Seq::<Hit>::empty());
            assert(acc.equations@ =~= Seq::<Hit>::empty());
            assert(acc.figures@ =~= Seq::<FloatHit>::empty());
            assert(acc.citations@ =~= Seq::<Hit>::empty());
            assert(acc.references@ =~= Seq::<Hit>::empty());
        }
    }
    while t < rels.len()
        invariant
            t <= rels.len(),
            index@ == id_map(nodes@),
            acc.view() == routed(nodes@, rels@, origin@, focus, t as int),
            acc.ok(nodes.len() as nat, rels.len() as nat),
        decreases rels.len() - t,
    {
        let route = route_of(nodes, index, rels, origin, focus, t);
        match route {
            Route::Skip => {},
            Route::Proof(h) => {
                acc.proofs.push(h);
            },
            Route::Proves(h) => {
                acc.proves.push(h);
                let not_theorem = !is_strict_theorem(nodes[h.target].kind.as_str());
                acc.proves_note = acc.proves_note || not_theorem;
            },
            Route::Equation(h) => {
                acc.equations.push(h);
            },
            Route::Figure(f, flag) => {
                acc.figures.push(f);
                acc.float_note = acc.float_note || flag;
            },
            Route::Citation(h) => {
                acc.citations.push(h);
            },
            Route::Reference(h) => {
                acc.references.push(h);
            },
        }
        t = t + 1;
    }
    acc
}

// ── ordering and capping the lists ────────────────────────────────────────

/// `a` comes strictly before `b` (lexicographic).
pub open spec fn pair_lt(a: (int, int), b: (int, int)) -> bool {
    a.0 < b.0 || (a.0 == b.0 && a.1 < b.1)
}

/// A hit is ordered by the id it is listed from, then the id it reaches.
pub open spec fn hit_key(h: Hit) -> (int, int) {
    (h.from as int, h.target_id as int)
}

/// A figure reference is ordered as its hit.
pub open spec fn float_key(f: FloatHit) -> (int, int) {
    hit_key(f.hit)
}

fn hit_lt(a: Hit, b: Hit) -> (r: bool)
    ensures
        r == pair_lt(hit_key(a), hit_key(b)),
{
    a.from < b.from || (a.from == b.from && a.target_id < b.target_id)
}

fn float_lt(a: FloatHit, b: FloatHit) -> (r: bool)
    ensures
        r == pair_lt(float_key(a), float_key(b)),
{
    hit_lt(a.hit, b.hit)
}

/// `x` put into the ordered `t` before the first element of a larger key.
pub open spec fn insert_hit(t: Seq<Hit>, x: Hit) -> Seq<Hit>
    decreases t.len(),
{
    if t.len() == 0 {
        seq![x]
    } else if pair_lt(hit_key(x), hit_key(t[0])) {
        seq![x] + t
    } else {
        seq![t[0]] + insert_hit(t.drop_first(), x)
    }
}

/// `s` ordered by `(from, target id)`, equal keys kept in their order.
pub open spec fn sort_hits(s: Seq<Hit>) -> Seq<Hit>
    decreases s.len(),
{
    if s.len() == 0 {
        Seq::empty()
    } else {
        insert_hit(sort_hits(s.drop_last()), s.last())
    }
}

proof fn lemma_insert_hit_at(t: Seq<Hit>, x: Hit, p: int)
    requires
        0 <= p <= t.len(),
        forall|q: int| 0 <= q < p ==> !pair_lt(hit_key(x), #[trigger] hit_key(t[q])),
        p == t.len() || pair_lt(hit_key(x), hit_key(t[p])),
    ensures
        insert_hit(t, x) == t.take(p) + seq![x] + t.skip(p),
    decreases t.len(),
{
    if t.len() == 0 {
        assert(t.take(p) + seq![x] + t.skip(p) =~= seq![x]);
    } else if p == 0 {
        assert(t.take(0) + seq![x] + t.skip(0) =~= seq![x] + t);
    } else {
        let r = t.drop_first();
        assert forall|q: int| 0 <= q < p - 1 implies !pair_lt(hit_key(x), #[trigger] hit_key(r[q])) by {
            assert(r[q] == t[q + 1]);
        }
        if p - 1 < r.len() {
            assert(r[p - 1] == t[p]);
        }
        assert(!pair_lt(hit_key(x), hit_key(t[0])));
        lemma_insert_hit_at(r, x, p - 1);
        assert(t.take(p) + seq![x] + t.skip(p) =~= seq![t[0]] + (r.take(p - 1) + seq![x] + r.skip(p - 1)));
    }
}

fn sort_hit_vec(s: &Vec<Hit>) -> (r: Vec<Hit>)
    ensures
        r@ == sort_hits(s@),
        forall|q: int| 0 <= q < r.len() ==> exists|j: int| 0 <= j < s.len() && #[trigger] r@[q] == s@[j],
{
    let mut t: Vec<Hit> = Vec::new();
    let mut i: usize = 0;
    proof {
        assert(s@.take(0) =~= Seq::<Hit>::empty());
    }
    while i < s.len()
        invariant
            i <= s.len(),
            t@ == sort_hits(s@.take(i as int)),
            forall|q: int| 0 <= q < t.len() ==> exists|j: int| 0 <= j < s.len() && #[trigger] t@[q] == s@[j],
        decreases s.len() - i,
    {
        let x = s[i];
        let mut p: usize = 0;
        while p < t.len() && !hit_lt(x, t[p])
            invariant
                p <= t.len(),
                forall|q: int| 0 <= q < p ==> !pair_lt(hit_key(x), #[trigger] hit_key(t@[q])),
            decreases t.len() - p,
        {
            p = p + 1;
        }
        let ghost tv = t@;
        proof {
            lemma_insert_hit_at(tv, x, p as int);
            assert(s@.take(i + 1).drop_last() =~= s@.take(i as int));
            assert(s@.take(i + 1).last() == x);
        }
        t.insert(p, x);
        proof {
            assert(t@ =~= tv.take(p as int) + seq![x] + tv.skip(p as int));
            assert forall|q: int| 0 <= q < t.len() implies exists|j: int| 0 <= j < s.len() && #[trigger] t@[q] == s@[j] by {
                if q < p {
                    assert(t@[q] == tv[q]);
                } else if q == p {
                    assert(t@[q] == s@[i as int]);
                } else {
                    assert(t@[q] == tv[q - 1]);
                }
            }
        }
        i = i + 1;
    }
    proof {
        assert(s@.take(s.len() as int) =~= s@);
    }
    t
}

/// `x` put into the ordered `t` before the first element of a larger key.
pub open spec fn insert_float(t: Seq<FloatHit>, x: FloatHit) -> Seq<FloatHit>
    decreases t.len(),
{
    if t.len() == 0 {
        seq![x]
    } else if pair_lt(float_key(x), float_key(t[0])) {
        seq![x] + t
    } else {
        seq![t[0]] + insert_float(t.drop_first(), x)
    }
}

/// `s` ordered by `(from, target id)`, equal keys kept in their order.
pub open spec fn sort_floats(s: Seq<FloatHit>) -> Seq<FloatHit>
    decreases s.len(),
{
    if s.len() == 0 {
        Seq::empty()
    } else {
        insert_float(sort_floats(s.drop_last()), s.last())
    }
}

proof fn lemma_insert_float_at(t: Seq<FloatHit>, x: FloatHit, p: int)
    requires
        0 <= p <= t.len(),
        forall|q: int| 0 <= q < p ==> !pair_lt(float_key(x), #[trigger] float_key(t[q])),
        p == t.len() || pair_lt(float_key(x), float_key(t[p])),
    ensures
        insert_float(t, x) == t.take(p) + seq![x] + t.skip(p),
    decreases t.len(),
{
    if t.len() == 0 {
        assert(t.take(p) + seq![x] + t.skip(p) =~= seq![x]);
    } else if p == 0 {
        assert(t.take(0) + seq![x] + t.skip(0) =~= seq![x] + t);
    } else {
        let r = t.drop_first();
        assert forall|q: int| 0 <= q < p - 1 implies !pair_lt(float_key(x), #[trigger] float_key(r[q])) by {
            assert(r[q] == t[q + 1]);
        }
        if p - 1 < r.len() {
            assert(r[p - 1] == t[p]);
        }
        assert(!pair_lt(float_key(x), float_key(t[0])));
        lemma_insert_float_at(r, x, p - 1);
        assert(t.take(p) + seq![x] + t.skip(p) =~= seq![t[0]] + (r.take(p - 1) + seq![x] + r.skip(p - 1)));
    }
}

fn sort_float_vec(s: &Vec<FloatHit>) -> (r: Vec<FloatHit>)
    ensures
        r@ == sort_floats(s@),
        forall|q: int| 0 <= q < r.len() ==> exists|j: int| 0 <= j < s.len() && #[trigger] r@[q] == s@[j],
{
    let mut t: Vec<FloatHit> = Vec::new();
    let mut i: usize = 0;
    proof {
        assert(s@.take(0) =~= Seq::<FloatHit>::empty());
    }
    while i < s.len()
        invariant
            i <= s.len(),
            t@ == sort_floats(s@.take(i as int)),
            forall|q: int| 0 <= q < t.len() ==> exists|j: int| 0 <= j < s.len() && #[trigger] t@[q] == s@[j],
        decreases s.len() - i,
    {
        let x = s[i];
        let mut p: usize = 0;
        while p < t.len() && !float_lt(x, t[p])
            invariant
                p <= t.len(),
                forall|q: int| 0 <= q < p ==> !pair_lt(float_key(x), #[trigger] float_key(t@[q])),
            decreases t.len() - p,
        {
            p = p + 1;
        }
        let ghost tv = t@;
        proof {
            lemma_insert_float_at(tv, x, p as int);
            assert(s@.take(i + 1).drop_last() =~= s@.take(i as int));
            assert(s@.take(i + 1).last() == x);
        }
        t.insert(p, x);
        proof {
            assert(t@ =~= tv.take(p as int) + seq![x] + tv.skip(p as int));
            assert forall|q: int| 0 <= q < t.len() implies exists|j: int| 0 <= j < s.len() && #[trigger] t@[q] == s@[j] by {
                if q < p {
                    assert(t@[q] == tv[q]);
                } else if q == p {
                    assert(t@[q] == s@[i as int]);
                } else {
                    assert(t@[q] == tv[q - 1]);
                }
            }
        }
        i = i + 1;
    }
    proof {
        assert(s@.take(s.len() as int) =~= s@);
    }
    t
}

/// `s` cut to its first `max` items.
pub open spec fn cap_seq<T>(s: Seq<T>, max: nat) -> Seq<T> {
    if s.len() > max {
        s.take(max as int)
    } else {
        s
    }
}

/// `s` without the items whose key equals that of the item kept before them.
pub open spec fn dedup_floats(s: Seq<FloatHit>) -> Seq<FloatHit>
    decreases s.len(),
{
    if s.len() == 0 {
        Seq::empty()
    } else {
        let d = dedup_floats(s.drop_last());
        if d.len() > 0 && float_key(d.last()) == float_key(s.last()) {
            d
        } else {
            d.push(s.last())
        }
    }
}

fn dedup_float_vec(s: &Vec<FloatHit>) -> (r: Vec<FloatHit>)
    ensures
        r@ == dedup_floats(s@),
        forall|q: int| 0 <= q < r.len() ==> exists|j: int| 0 <= j < s.len() && #[trigger] r@[q] == s@[j],
{
    let mut d: Vec<FloatHit> = Vec::new();
    let mut i: usize = 0;
    proof {
        assert(s@.take(0) =~= Seq::<FloatHit>::empty());
    }
    while i < s.len()
        invariant
            i <= s.len(),
            d@ == dedup_floats(s@.take(i as int)),
            forall|q: int| 0 <= q < d.len() ==> exists|j: int| 0 <= j < s.len() && #[trigger] d@[q] == s@[j],
        decreases s.len() - i,
    {
        let x = s[i];
        proof {
            assert(s@.take(i + 1).drop_last() =~= s@.take(i as int));
            assert(s@.take(i + 1).last() == x);
        }
        let same = d.len() > 0 && !float_lt(d[d.len() - 1], x) && !float_lt(x, d[d.len() - 1]);
        if !same {
            let ghost dv = d@;
            d.push(x);
            proof {
                assert forall|q: int| 0 <= q < d.len() implies exists|j: int| 0 <= j < s.len() && #[trigger] d@[q] == s@[j] by {
                    if q < dv.len() {
                        assert(d@[q] == dv[q]);
                    } else {
                        assert(d@[q] == s@[i as int]);
                    }
                }
            }
        }
        i = i + 1;
    }
    proof {
        assert(s@.take(s.len() as int) =~= s@);
    }
    d
}

/// The hits of `s` that reach a `definition` node, in order.
pub open spec fn definition_hits(nodes: Seq<DocNode>, s: Seq<Hit>) -> Seq<Hit>
    decreases s.len(),
{
    if s.len() == 0 {
        Seq::empty()
    } else if nodes[s.last().target as int].kind@ == "definition"@ {
        definition_hits(nodes, s.drop_last()).push(s.last())
    } else {
        definition_hits(nodes, s.drop_last())
    }
}

fn definition_hit_vec(nodes: &Vec<DocNode>, s: &Vec<Hit>) -> (r: Vec<Hit>)
    requires
        forall|q: int| 0 <= q < s.len() ==> (#[trigger] s@[q]).target < nodes.len(),
    ensures
        r@ == definition_hits(nodes@, s@),
        drawn_from(r@, s@),
{
    let mut d: Vec<Hit> = Vec::new();
    let mut i: usize = 0;
    proof {
        assert(s@.take(0) =~= Seq::<Hit>::empty());
    }
    while i < s.len()
        invariant
            i <= s.len(),
            forall|q: int| 0 <= q < s.len() ==> (#[trigger] s@[q]).target < nodes.len(),
            drawn_from(d@, s@),
            d@ == definition_hits(nodes@, s@.take(i as int)),
        decreases s.len() - i,
    {
        let x = s[i];
        proof {
            assert(s@.take(i + 1).drop_last() =~= s@.take(i as int));
            assert(s@.take(i + 1).last() == x);
            assert(x.target < nodes.len());
        }
        if is_lit(&to_chars(nodes[x.target].kind.as_str()), "definition") {
            let ghost dv = d@;
            d.push(x);
            proof {
                assert forall|q: int| 0 <= q < d.len() implies exists|j: int| 0 <= j < s.len() && #[trigger] d@[q] == s@[j] by {
                    if q < dv.len() {
                        assert(d@[q] == dv[q]);
                    } else {
                        assert(d@[q] == s@[i as int]);
                    }
                }
            }
        }
        i = i + 1;
    }
    proof {
        assert(s@.take(s.len() as int) =~= s@);
    }
    d
}

/// Some hit of `s` reaches the node with id `id`.
pub open spec fn has_target(s: Seq<Hit>, id: i64) -> bool {
    exists|j: int| 0 <= j < s.len() && (#[trigger] s[j]).target_id == id
}

/// The hits of `s` that reach a node no earlier hit reaches.
pub open spec fn first_targets(s: Seq<Hit>) -> Seq<Hit>
    decreases s.len(),
{
    if s.len() == 0 {
        Seq::empty()
    } else if has_target(s.drop_last(), s.last().target_id) {
        first_targets(s.drop_last())
    } else {
        first_targets(s.drop_last()).push(s.last())
    }
}

fn first_target_vec(s: &Vec<Hit>) -> (r: Vec<Hit>)
    ensures
        r@ == first_targets(s@),
        forall|q: int| 0 <= q < r.len() ==> exists|j: int| 0 <= j < s.len() && #[trigger] r@[q] == s@[j],
{
    let mut d: Vec<Hit> = Vec::new();
    let mut seen: Vec<i64> = Vec::new();
    let mut i: usize = 0;
    proof {
        assert(s@.take(0) =~= Seq::<Hit>::empty());
    }
    while i < s.len()
        invariant
            i <= s.len(),
            d@ == first_targets(s@.take(i as int)),
            seen.len() == i,
            forall|q: int| 0 <= q < i ==> seen@[q] == (#[trigger] s@[q]).target_id,
            forall|q: int| 0 <= q < d.len() ==> exists|j: int| 0 <= j < s.len() && #[trigger] d@[q] == s@[j],
        decreases s.len() - i,
    {
        let x = s[i];
        let ghost pre = s@.take(i as int);
        proof {
            assert(s@.take(i + 1).drop_last() =~= pre);
            assert(s@.take(i + 1).last() == x);
        }
        let dup = has_id(&seen, x.target_id);
        proof {
            if dup {
                let q = choose|q: int| 0 <= q < seen.len() && seen@[q] == x.target_id;
                assert(pre[q].target_id == x.target_id);
            } else {
                assert forall|j: int| 0 <= j < pre.len() implies (#[trigger] pre[j]).target_id != x.target_id by {
                    assert(seen@[j] == s@[j].target_id);
                }
            }
        }
        if !dup {
            let ghost dv = d@;
            d.push(x);
            proof {
                assert forall|q: int| 0 <= q < d.len() implies exists|j: int| 0 <= j < s.len() && #[trigger] d@[q] == s@[j] by {
                    if q < dv.len() {
                        assert(d@[q] == dv[q]);
                    } else {
                        assert(d@[q] == s@[i as int]);
                    }
                }
            }
        }
        seen.push(x.target_id);
        i = i + 1;
    }
    proof {
        assert(s@.take(s.len() as int) =~= s@);
    }
    d
}

/// `v` cut to its first `max` items; whether it was cut.
fn cap_hits(v: &mut Vec<Hit>, max: usize) -> (cut: bool)
    ensures
        final(v)@ == cap_seq(old(v)@, max as nat),
        cut == (old(v)@.len() > max),
{
    if v.len() > max {
        v.truncate(max);
        true
    } else {
        false
    }
}

fn cap_floats(v: &mut Vec<FloatHit>, max: usize) -> (cut: bool)
    ensures
        final(v)@ == cap_seq(old(v)@, max as nat),
        cut == (old(v)@.len() > max),
{
    if v.len() > max {
        v.truncate(max);
        true
    } else {
        false
    }
}

// ── definitions the focus rests on, through its symbols ──────────────────

/// A symbol taken as a premise: how strongly (2 for a recorded occurrence, 1 for
/// `$surface$` in the text), whether it has a description, and the position
/// (in the content order) and id of the node that defines it.
#[derive(Clone, Copy, Debug)]
pub struct Cand {
    pub rank: u8,
    pub has_desc: bool,
    pub def_pos: usize,
    pub def_id: i64,
}

/// `a` outranks `b`: by rank, then a description, then a later definition.
pub open spec fn cand_gt(a: Cand, b: Cand) -> bool {
    a.rank > b.rank || (a.rank == b.rank && ((a.has_desc && !b.has_desc) || (a.has_desc == b.has_desc
        && a.def_pos > b.def_pos)))
}

/// The id is the focus's or its continuation's, or the target of one of the
/// equation references.
pub open spec fn in_scope(origin: Seq<i64>, eqs: Seq<Hit>, id: i64) -> bool {
    origin.contains(id) || has_target(eqs, id)
}

/// The text the focus and its continuation show: each text followed by a newline.
pub open spec fn haystack(nodes: Seq<DocNode>, origin: Seq<i64>) -> Seq<char>
    decreases origin.len(),
{
    if origin.len() == 0 {
        Seq::empty()
    } else {
        let h = haystack(nodes, origin.drop_last());
        match node_at(nodes, origin.last()) {
            Some(k) => match nodes[k].plain_text {
                Some(t) => h + t@ + seq!['\n'],
                None => h,
            },
            None => h,
        }
    }
}

/// `$surface$`.
pub open spec fn dollar_wrapped(surface: Seq<char>) -> Seq<char> {
    seq!['$'] + surface + seq!['$']
}

/// How a symbol reaches the focus: 2 when an occurrence is recorded at a node in
/// scope, 1 when `$surface$` stands in the text, else 0.
pub open spec fn symbol_rank(origin: Seq<i64>, eqs: Seq<Hit>, hay: Seq<char>, s: DocSymbol) -> u8 {
    if exists|j: int| 0 <= j < s.occurrence_node_ids@.len() && in_scope(origin, eqs, #[trigger] s.occurrence_node_ids@[j]) {
        2
    } else if s.surface_form@.len() > 0 && contains_seq(hay, dollar_wrapped(s.surface_form@)) {
        1
    } else {
        0
    }
}

/// The premise a symbol offers: its definition must be a content block read
/// before the focus, and the symbol must reach the focus.
pub open spec fn symbol_cand(
    nodes: Seq<DocNode>,
    content: Seq<i64>,
    focus_pos: Option<int>,
    origin: Seq<i64>,
    eqs: Seq<Hit>,
    hay: Seq<char>,
    s: DocSymbol,
) -> Option<Cand> {
    match s.defined_at_node_id {
        None => None,
        Some(def_id) => match last_pos(content, def_id) {
            None => None,
            Some(dp) => match focus_pos {
                None => None,
                Some(fp) => if dp >= fp || node_at(nodes, def_id) is None || symbol_rank(origin, eqs, hay, s) == 0 {
                    None
                } else {
                    Some(Cand {
                        rank: symbol_rank(origin, eqs, hay, s),
                        has_desc: s.description is Some,
                        def_pos: dp as usize,
                        def_id,
                    })
                },
            },
        },
    }
}

/// The last slot of `b` whose symbol has the surface `surf`.
pub open spec fn surface_slot(symbols: Seq<DocSymbol>, b: Seq<(usize, Cand)>, surf: Seq<char>) -> Option<int>
    decreases b.len(),
{
    if b.len() == 0 {
        None
    } else if symbols[b.last().0 as int].surface_form@ == surf {
        Some(b.len() - 1)
    } else {
        surface_slot(symbols, b.drop_last(), surf)
    }
}

/// The best premise of each surface among the first `m` symbols (symbol index
/// and candidate), in the order the surfaces first came; a later candidate
/// replaces an earlier one only when it outranks it.
pub open spec fn best_upto(
    nodes: Seq<DocNode>,
    symbols: Seq<DocSymbol>,
    content: Seq<i64>,
    focus_pos: Option<int>,
    origin: Seq<i64>,
    eqs: Seq<Hit>,
    hay: Seq<char>,
    m: int,
) -> Seq<(usize, Cand)>
    decreases m,
{
    if m <= 0 {
        Seq::empty()
    } else {
        let b = best_upto(nodes, symbols, content, focus_pos, origin, eqs, hay, m - 1);
        match symbol_cand(nodes, content, focus_pos, origin, eqs, hay, symbols[m - 1]) {
            None => b,
            Some(c) => match surface_slot(symbols, b, symbols[m - 1].surface_form@) {
                None => b.push(((m - 1) as usize, c)),
                Some(q) => if cand_gt(c, b[q].1) {
                    b.update(q, ((m - 1) as usize, c))
                } else {
                    b
                },
            },
        }
    }
}

/// The order of symbol premises: by surface, then by the defining node's id.
pub open spec fn slot_lt(symbols: Seq<DocSymbol>, a: (usize, Cand), b: (usize, Cand)) -> bool {
    let sa = symbols[a.0 as int].surface_form@;
    let sb = symbols[b.0 as int].surface_form@;
    seq_lt(sa, sb) || (sa == sb && a.1.def_id < b.1.def_id)
}

/// `x` put into the ordered `t` before the first slot it comes before.
pub open spec fn insert_slot(symbols: Seq<DocSymbol>, t: Seq<(usize, Cand)>, x: (usize, Cand)) -> Seq<(usize, Cand)>
    decreases t.len(),
{
    if t.len() == 0 {
        seq![x]
    } else if slot_lt(symbols, x, t[0]) {
        seq![x] + t
    } else {
        seq![t[0]] + insert_slot(symbols, t.drop_first(), x)
    }
}

/// Symbol premises ordered by surface, then defining node id.
pub open spec fn sort_slots(symbols: Seq<DocSymbol>, s: Seq<(usize, Cand)>) -> Seq<(usize, Cand)>
    decreases s.len(),
{
    if s.len() == 0 {
        Seq::empty()
    } else {
        insert_slot(symbols, sort_slots(symbols, s.drop_last()), s.last())
    }
}

proof fn lemma_insert_slot_at(symbols: Seq<DocSymbol>, t: Seq<(usize, Cand)>, x: (usize, Cand), p: int)
    requires
        0 <= p <= t.len(),
        forall|q: int| 0 <= q < p ==> !slot_lt(symbols, x, #[trigger] t[q]),
        p == t.len() || slot_lt(symbols, x, t[p]),
    ensures
        insert_slot(symbols, t, x) == t.take(p) + seq![x] + t.skip(p),
    decreases t.len(),
{
    if t.len() == 0 {
        assert(t.take(p) + seq![x] + t.skip(p) =~= seq![x]);
    } else if p == 0 {
        assert(t.take(0) + seq![x] + t.skip(0) =~= seq![x] + t);
    } else {
        let r = t.drop_first();
        assert forall|q: int| 0 <= q < p - 1 implies !slot_lt(symbols, x, #[trigger] r[q]) by {
            assert(r[q] == t[q + 1]);
        }
        if p - 1 < r.len() {
            assert(r[p - 1] == t[p]);
        }
        assert(!slot_lt(symbols, x, t[0]));
        lemma_insert_slot_at(symbols, r, x, p - 1);
        assert(t.take(p) + seq![x] + t.skip(p) =~= seq![t[0]] + (r.take(p - 1) + seq![x] + r.skip(p - 1)));
    }
}

/// Slots whose symbol indices are in range.
pub open spec fn slots_ok(b: Seq<(usize, Cand)>, n: nat) -> bool {
    forall|q: int| 0 <= q < b.len() ==> (#[trigger] b[q]).0 < n
}

fn chars_eq_vec(a: &Vec<char>, b: &Vec<char>) -> (r: bool)
    ensures
        r == (a@ == b@),
{
    crate::text::chars_eq(a, b)
}

fn slot_less(symbols: &Vec<DocSymbol>, a: (usize, Cand), b: (usize, Cand)) -> (r: bool)
    requires
        a.0 < symbols.len(),
        b.0 < symbols.len(),
    ensures
        r == slot_lt(symbols@, a, b),
{
    let sa = to_chars(symbols[a.0].surface_form.as_str());
    let sb = to_chars(symbols[b.0].surface_form.as_str());
    chars_lt(&sa, &sb) || (chars_eq_vec(&sa, &sb) && a.1.def_id < b.1.def_id)
}

fn sort_slot_vec(symbols: &Vec<DocSymbol>, s: &Vec<(usize, Cand)>) -> (r: Vec<(usize, Cand)>)
    requires
        slots_ok(s@, symbols.len() as nat),
    ensures
        r@ == sort_slots(symbols@, s@),
        slots_ok(r@, symbols.len() as nat),
        drawn_from(r@, s@),
{
    let mut t: Vec<(usize, Cand)> = Vec::new();
    let mut i: usize = 0;
    proof {
        assert(s@.take(0) =~= Seq::<(usize, Cand)>::empty());
    }
    while i < s.len()
        invariant
            i <= s.len(),
            slots_ok(s@, symbols.len() as nat),
            slots_ok(t@, symbols.len() as nat),
            drawn_from(t@, s@),
            t@ == sort_slots(symbols@, s@.take(i as int)),
        decreases s.len() - i,
    {
        let x = s[i];
        proof {
            assert(x.0 < symbols.len());
        }
        let mut p: usize = 0;
        while p < t.len() && !slot_less(symbols, x, t[p])
            invariant
                p <= t.len(),
                x.0 < symbols.len(),
                slots_ok(t@, symbols.len() as nat),
                forall|q: int| 0 <= q < p ==> !slot_lt(symbols@, x, #[trigger] t@[q]),
            decreases t.len() - p,
        {
            p = p + 1;
        }
        let ghost tv = t@;
        proof {
            lemma_insert_slot_at(symbols@, tv, x, p as int);
            assert(s@.take(i + 1).drop_last() =~= s@.take(i as int));
            assert(s@.take(i + 1).last() == x);
        }
        t.insert(p, x);
        proof {
            assert(t@ =~= tv.take(p as int) + seq![x] + tv.skip(p as int));
            assert forall|q: int| 0 <= q < t.len() implies (#[trigger] t@[q]).0 < symbols.len() by {
                if q < p {
                    assert(t@[q] == tv[q]);
                } else if q > p {
                    assert(t@[q] == tv[q - 1]);
                }
            }
            assert forall|q: int| 0 <= q < t.len() implies exists|j: int| 0 <= j < s.len() && #[trigger] t@[q] == s@[j] by {
                if q < p {
                    assert(t@[q] == tv[q]);
                } else if q == p {
                    assert(t@[q] == s@[i as int]);
                } else {
                    assert(t@[q] == tv[q - 1]);
                }
            }
        }
        i = i + 1;
    }
    proof {
        assert(s@.take(s.len() as int) =~= s@);
    }
    t
}

fn build_haystack(nodes: &Vec<DocNode>, index: &HashMap<i64, usize>, origin: &Vec<i64>) -> (h: Vec<char>)
    requires
        index@ == id_map(nodes@),
    ensures
        h@ == haystack(nodes@, origin@),
{
    let mut h: Vec<char> = Vec::new();
    let mut i: usize = 0;
    proof {
        assert(origin@.take(0) =~= Seq::<i64>::empty());
    }
    while i < origin.len()
        invariant
            i <= origin.len(),
            index@ == id_map(nodes@),
            h@ == haystack(nodes@, origin@.take(i as int)),
        decreases origin.len() - i,
    {
        proof {
            assert(origin@.take(i + 1).drop_last() =~= origin@.take(i as int));
            assert(origin@.take(i + 1).last() == origin@[i as int]);
        }
        match lookup(index, nodes, origin[i]) {
            Some(k) => match &nodes[k].plain_text {
                Some(t) => {
                    let c = to_chars(t.as_str());
                    push_all(&mut h, &c);
                    h.push('\n');
                },
                None => {},
            },
            None => {},
        }
        i = i + 1;
    }
    proof {
        assert(origin@.take(origin.len() as int) =~= origin@);
    }
    h
}

fn hits_reach(v: &Vec<Hit>, id: i64) -> (r: bool)
    ensures
        r == has_target(v@, id),
{
    let mut i: usize = 0;
    while i < v.len()
        invariant
            i <= v.len(),
            forall|q: int| 0 <= q < i ==> (#[trigger] v@[q]).target_id != id,
        decreases v.len() - i,
    {
        if v[i].target_id == id {
            return true;
        }
        i = i + 1;
    }
    false
}

fn rank_of(origin: &Vec<i64>, eqs: &Vec<Hit>, hay: &Vec<char>, s: &DocSymbol) -> (r: u8)
    ensures
        r == symbol_rank(origin@, eqs@, hay@, *s),
{
    let occ = &s.occurrence_node_ids;
    let mut j: usize = 0;
    while j < occ.len()
        invariant
            j <= occ.len(),
            occ@ == s.occurrence_node_ids@,
            forall|q: int| 0 <= q < j ==> !in_scope(origin@, eqs@, #[trigger] occ@[q]),
        decreases occ.len() - j,
    {
        if has_id(origin, occ[j]) || hits_reach(eqs, occ[j]) {
            proof {
                assert(in_scope(origin@, eqs@, s.occurrence_node_ids@[j as int]));
            }
            return 2;
        }
        j = j + 1;
    }
    let surf = to_chars(s.surface_form.as_str());
    if surf.len() > 0 {
        let mut pat: Vec<char> = Vec::new();
        pat.push('$');
        push_all(&mut pat, &surf);
        pat.push('$');
        proof {
            assert(pat@ =~= dollar_wrapped(s.surface_form@));
        }
        if contains_chars(hay, &pat) {
            return 1;
        }
    }
    0
}

fn cand_of(
    nodes: &Vec<DocNode>,
    index: &HashMap<i64, usize>,
    content: &Vec<i64>,
    focus_pos: Option<usize>,
    origin: &Vec<i64>,
    eqs: &Vec<Hit>,
    hay: &Vec<char>,
    s: &DocSymbol,
) -> (r: Option<Cand>)
    requires
        index@ == id_map(nodes@),
    ensures
        r == symbol_cand(nodes@, content@, match focus_pos {
            Some(p) => Some(p as int),
            None => None,
        }, origin@, eqs@, hay@, *s),
        match r {
            Some(c) => node_at(nodes@, c.def_id) is Some,
            None => true,
        },
{
    let def_id = match s.defined_at_node_id {
        Some(d) => d,
        None => return None,
    };
    let dp = match find_last(content, def_id) {
        Some(p) => p,
        None => return None,
    };
    let fp = match focus_pos {
        Some(p) => p,
        None => return None,
    };
    if dp >= fp {
        return None;
    }
    if lookup(index, nodes, def_id).is_none() {
        return None;
    }
    let rank = rank_of(origin, eqs, hay, s);
    if rank == 0 {
        return None;
    }
    Some(Cand { rank, has_desc: s.description.is_some(), def_pos: dp, def_id })
}

fn cand_beats(a: Cand, b: Cand) -> (r: bool)
    ensures
        r == cand_gt(a, b),
{
    a.rank > b.rank || (a.rank == b.rank && ((a.has_desc && !b.has_desc) || (a.has_desc == b.has_desc
        && a.def_pos > b.def_pos)))
}

fn find_surface_slot(symbols: &Vec<DocSymbol>, b: &Vec<(usize, Cand)>, surf: &Vec<char>) -> (r: Option<usize>)
    requires
        slots_ok(b@, symbols.len() as nat),
    ensures
        match r {
            Some(q) => surface_slot(symbols@, b@, surf@) == Some(q as int) && q < b.len(),
            None => surface_slot(symbols@, b@, surf@) is None,
        },
{
    let mut i = b.len();
    proof {
        assert(b@.subrange(0, i as int) =~= b@);
    }
    while i > 0
        invariant
            i <= b.len(),
            slots_ok(b@, symbols.len() as nat),
            surface_slot(symbols@, b@, surf@) == surface_slot(symbols@, b@.subrange(0, i as int), surf@),
        decreases i,
    {
        let ghost pre = b@.subrange(0, i as int);
        let e = b[i - 1];
        proof {
            assert(e.0 < symbols.len());
            assert(pre.last() == e);
        }
        if chars_eq_vec(&to_chars(symbols[e.0].surface_form.as_str()), surf) {
            return Some(i - 1);
        }
        proof {
            assert(pre.drop_last() =~= b@.subrange(0, i - 1));
        }
        i = i - 1;
    }
    None
}

/// The best premise of each symbol surface (see [`best_upto`]).
fn best_symbols(
    nodes: &Vec<DocNode>,
    index: &HashMap<i64, usize>,
    symbols: &Vec<DocSymbol>,
    content: &Vec<i64>,
    focus_pos: Option<usize>,
    origin: &Vec<i64>,
    eqs: &Vec<Hit>,
    hay: &Vec<char>,
) -> (b: Vec<(usize, Cand)>)
    requires
        index@ == id_map(nodes@),
    ensures
        b@ == best_upto(nodes@, symbols@, content@, match focus_pos {
            Some(p) => Some(p as int),
            None => None,
        }, origin@, eqs@, hay@, symbols.len() as int),
        slots_ok(b@, symbols.len() as nat),
        forall|q: int| 0 <= q < b.len() ==> node_at(nodes@, (#[trigger] b@[q]).1.def_id) is Some,
{
    let ghost fp = match focus_pos {
        Some(p) => Some(p as int),
        None => None,
    };
    let mut b: Vec<(usize, Cand)> = Vec::new();
    let mut m: usize = 0;
    while m < symbols.len()
        invariant
            m <= symbols.len(),
            index@ == id_map(nodes@),
            fp == (match focus_pos {
                Some(p) => Some(p as int),
                None => None,
            }),
            b@ == best_upto(nodes@, symbols@, content@, fp, origin@, eqs@, hay@, m as int),
            slots_ok(b@, symbols.len() as nat),
            forall|q: int| 0 <= q < b.len() ==> node_at(nodes@, (#[trigger] b@[q]).1.def_id) is Some,
        decreases symbols.len() - m,
    {
        match cand_of(nodes, index, content, focus_pos, origin, eqs, hay, &symbols[m]) {
            None => {},
            Some(c) => {
                let surf = to_chars(symbols[m].surface_form.as_str());
                match find_surface_slot(symbols, &b, &surf) {
                    None => {
                        b.push((m, c));
                    },
                    Some(q) => {
                        if cand_beats(c, b[q].1) {
                            b.set(q, (m, c));
                        }
                    },
                }
            },
        }
        m = m + 1;
    }
    b
}

// ── what the bundle shows ─────────────────────────────────────────────────

/// Which way a relation runs relative to the focus.
#[derive(Clone, Copy, Debug, PartialEq, Eq, Structural)]
pub enum Direction {
    /// Into the focus (a proof of it).
    Incoming,
    /// Out of the focus or its continuation.
    Outgoing,
}

impl Direction {
    /// The direction's name.
    pub open spec fn text(self) -> Seq<char> {
        match self {
            Direction::Incoming => "incoming"@,
            Direction::Outgoing => "outgoing"@,
        }
    }

    /// `incoming` or `outgoing`.
    pub fn as_str(self) -> (r: &'static str)
        ensures
            r@ == self.text(),
    {
        match self {
            Direction::Incoming => "incoming",
            Direction::Outgoing => "outgoing",
        }
    }
}

/// A relation and the node at its other end.
#[derive(Debug)]
pub struct Related {
    /// The relation's position among the document's relations.
    pub relation: usize,
    pub relation_type: String,
    pub direction: Direction,
    pub from_node_id: i64,
    pub node: ContextNode,
}

/// The view of a [`Related`].
pub struct RelatedView {
    pub relation: usize,
    pub relation_type: Seq<char>,
    pub direction: Direction,
    pub from_node_id: i64,
    pub node: ContextNodeView,
}

impl Related {
    /// The relation as a value.
    pub open spec fn view(&self) -> RelatedView {
        RelatedView {
            relation: self.relation,
            relation_type: self.relation_type@,
            direction: self.direction,
            from_node_id: self.from_node_id,
            node: self.node.view(),
        }
    }
}

/// The views of related nodes.
pub open spec fn related_refs_view(v: Seq<Related>) -> Seq<RelatedView> {
    v.map_values(|r: Related| r.view())
}

/// What the bundle shows of hit `h`.
pub open spec fn related_view(nodes: Seq<DocNode>, rels: Seq<DocRelation>, h: Hit, dir: Direction) -> RelatedView {
    RelatedView {
        relation: h.rel,
        relation_type: rels[h.rel as int].relation_type@,
        direction: dir,
        from_node_id: h.from,
        node: shown(nodes[h.target as int], RELATED_TEXT_CAP as nat),
    }
}

/// What the bundle shows of the hits `hs`.
pub open spec fn related_views(nodes: Seq<DocNode>, rels: Seq<DocRelation>, hs: Seq<Hit>, dir: Direction) -> Seq<RelatedView> {
    hs.map_values(|h: Hit| related_view(nodes, rels, h, dir))
}

/// A figure or table reference: the node the relation names, and the region and
/// caption it resolves to.
#[derive(Debug)]
pub struct FloatRef {
    pub relation: usize,
    pub relation_type: String,
    pub from_node_id: i64,
    pub resolved_via: Option<String>,
    pub node: ContextNode,
    pub figure: Option<ContextNode>,
    pub caption: Option<ContextNode>,
}

/// The view of a [`FloatRef`].
pub struct FloatView {
    pub relation: usize,
    pub relation_type: Seq<char>,
    pub from_node_id: i64,
    pub resolved_via: Option<Seq<char>>,
    pub node: ContextNodeView,
    pub figure: Option<ContextNodeView>,
    pub caption: Option<ContextNodeView>,
}

/// The view of an optional shown node.
pub open spec fn opt_ref_view(o: Option<ContextNode>) -> Option<ContextNodeView> {
    match o {
        Some(r) => Some(r.view()),
        None => None,
    }
}

impl FloatRef {
    /// The reference as a value.
    pub open spec fn view(&self) -> FloatView {
        FloatView {
            relation: self.relation,
            relation_type: self.relation_type@,
            from_node_id: self.from_node_id,
            resolved_via: opt_view(self.resolved_via),
            node: self.node.view(),
            figure: opt_ref_view(self.figure),
            caption: opt_ref_view(self.caption),
        }
    }
}

/// The views of figure references.
pub open spec fn float_refs_view(v: Seq<FloatRef>) -> Seq<FloatView> {
    v.map_values(|r: FloatRef| r.view())
}

/// A node position shown at the related cap.
pub open spec fn shown_at(nodes: Seq<DocNode>, k: Option<usize>) -> Option<ContextNodeView> {
    match k {
        Some(i) => Some(shown(nodes[i as int], RELATED_TEXT_CAP as nat)),
        None => None,
    }
}

/// What the bundle shows of figure reference `f`.
pub open spec fn float_view(nodes: Seq<DocNode>, rels: Seq<DocRelation>, f: FloatHit) -> FloatView {
    FloatView {
        relation: f.hit.rel,
        relation_type: rels[f.hit.rel as int].relation_type@,
        from_node_id: f.hit.from,
        resolved_via: opt_view(rels[f.hit.rel as int].resolved_via),
        node: shown(nodes[f.hit.target as int], RELATED_TEXT_CAP as nat),
        figure: shown_at(nodes, f.entity),
        caption: shown_at(nodes, f.caption),
    }
}

/// What the bundle shows of the figure references `fs`.
pub open spec fn float_views(nodes: Seq<DocNode>, rels: Seq<DocRelation>, fs: Seq<FloatHit>) -> Seq<FloatView> {
    fs.map_values(|f: FloatHit| float_view(nodes, rels, f))
}

/// How a premise was found.
#[derive(Clone, Copy, Debug, PartialEq, Eq, Structural)]
pub enum PremiseVia {
    /// A relation from the focus (or its continuation) to a definition.
    Reference,
    /// A recorded occurrence of a symbol in scope.
    Occurrence,
    /// `$surface$` of a symbol in the focus's text.
    Symbol,
}

impl PremiseVia {
    /// The route's name.
    pub open spec fn text(self) -> Seq<char> {
        match self {
            PremiseVia::Reference => "reference"@,
            PremiseVia::Occurrence => "occurrence"@,
            PremiseVia::Symbol => "symbol"@,
        }
    }

    /// `reference`, `occurrence` or `symbol`.
    pub fn as_str(self) -> (r: &'static str)
        ensures
            r@ == self.text(),
    {
        match self {
            PremiseVia::Reference => "reference",
            PremiseVia::Occurrence => "occurrence",
            PremiseVia::Symbol => "symbol",
        }
    }
}

/// The symbol a premise was found through.
#[derive(Debug)]
pub struct PremiseSymbol {
    pub surface_form: String,
    pub normalized_form: Option<String>,
    pub description: Option<String>,
    pub symbol_type: Option<String>,
    pub origin: Option<String>,
}

/// The view of a [`PremiseSymbol`].
pub struct PremiseSymbolView {
    pub surface_form: Seq<char>,
    pub normalized_form: Option<Seq<char>>,
    pub description: Option<Seq<char>>,
    pub symbol_type: Option<Seq<char>>,
    pub origin: Option<Seq<char>>,
}

impl PremiseSymbol {
    /// The symbol as a value.
    pub open spec fn view(&self) -> PremiseSymbolView {
        PremiseSymbolView {
            surface_form: self.surface_form@,
            normalized_form: opt_view(self.normalized_form),
            description: opt_view(self.description),
            symbol_type: opt_view(self.symbol_type),
            origin: opt_view(self.origin),
        }
    }
}

/// What a premise shows of a document symbol.
pub open spec fn symbol_view(s: DocSymbol) -> PremiseSymbolView {
    PremiseSymbolView {
        surface_form: s.surface_form@,
        normalized_form: opt_view(s.normalized_form),
        description: opt_view(s.description),
        symbol_type: opt_view(s.symbol_type),
        origin: opt_view(s.origin),
    }
}

/// A definition the focus rests on, and how it was found.
#[derive(Debug)]
pub struct Premise {
    pub via: PremiseVia,
    pub node: ContextNode,
    pub symbol: Option<PremiseSymbol>,
    pub relation: Option<Related>,
}

/// The view of a [`Premise`].
pub struct PremiseView {
    pub via: PremiseVia,
    pub node: ContextNodeView,
    pub symbol: Option<PremiseSymbolView>,
    pub relation: Option<RelatedView>,
}

impl Premise {
    /// The premise as a value.
    pub open spec fn view(&self) -> PremiseView {
        PremiseView {
            via: self.via,
            node: self.node.view(),
            symbol: match self.symbol {
                Some(s) => Some(s.view()),
                None => None,
            },
            relation: match self.relation {
                Some(r) => Some(r.view()),
                None => None,
            },
        }
    }
}

/// The views of premises.
pub open spec fn premises_view(v: Seq<Premise>) -> Seq<PremiseView> {
    v.map_values(|p: Premise| p.view())
}

/// The premise of a relation to a definition.
pub open spec fn reference_premise(nodes: Seq<DocNode>, rels: Seq<DocRelation>, h: Hit) -> PremiseView {
    PremiseView {
        via: PremiseVia::Reference,
        node: shown(nodes[h.target as int], PREMISE_TEXT_CAP as nat),
        symbol: None,
        relation: Some(related_view(nodes, rels, h, Direction::Outgoing)),
    }
}

/// The premise of a symbol slot.
pub open spec fn symbol_premise(nodes: Seq<DocNode>, symbols: Seq<DocSymbol>, slot: (usize, Cand)) -> PremiseView {
    PremiseView {
        via: if slot.1.rank == 2 {
            PremiseVia::Occurrence
        } else {
            PremiseVia::Symbol
        },
        node: shown(nodes[node_at(nodes, slot.1.def_id)->0], PREMISE_TEXT_CAP as nat),
        symbol: Some(symbol_view(symbols[slot.0 as int])),
        relation: None,
    }
}

fn related(nodes: &Vec<DocNode>, rels: &Vec<DocRelation>, h: Hit, dir: Direction) -> (r: Related)
    requires
        h.target < nodes.len(),
        h.rel < rels.len(),
    ensures
        r.view() == related_view(nodes@, rels@, h, dir),
{
    Related {
        relation: h.rel,
        relation_type: rels[h.rel].relation_type.clone(),
        direction: dir,
        from_node_id: h.from,
        node: context_node(&nodes[h.target], RELATED_TEXT_CAP),
    }
}

fn related_list(nodes: &Vec<DocNode>, rels: &Vec<DocRelation>, hs: &Vec<Hit>, dir: Direction) -> (r: Vec<Related>)
    requires
        hits_ok(hs@, nodes.len() as nat, rels.len() as nat),
    ensures
        related_refs_view(r@) == related_views(nodes@, rels@, hs@, dir),
{
    let mut out: Vec<Related> = Vec::new();
    let mut i: usize = 0;
    while i < hs.len()
        invariant
            i <= hs.len(),
            hits_ok(hs@, nodes.len() as nat, rels.len() as nat),
            out.len() == i,
            forall|q: int| 0 <= q < i ==> (#[trigger] out@[q]).view() == related_view(nodes@, rels@, hs@[q], dir),
        decreases hs.len() - i,
    {
        let h = hs[i];
        proof {
            assert(hs@[i as int].target < nodes.len());
        }
        out.push(related(nodes, rels, h, dir));
        i = i + 1;
    }
    proof {
        assert(related_refs_view(out@) =~= related_views(nodes@, rels@, hs@, dir));
    }
    out
}

fn show_at(nodes: &Vec<DocNode>, k: Option<usize>) -> (r: Option<ContextNode>)
    requires
        match k {
            Some(i) => i < nodes.len(),
            None => true,
        },
    ensures
        opt_ref_view(r) == shown_at(nodes@, k),
{
    match k {
        Some(i) => Some(context_node(&nodes[i], RELATED_TEXT_CAP)),
        None => None,
    }
}

fn float_list(nodes: &Vec<DocNode>, rels: &Vec<DocRelation>, fs: &Vec<FloatHit>) -> (r: Vec<FloatRef>)
    requires
        floats_ok(fs@, nodes.len() as nat, rels.len() as nat),
    ensures
        float_refs_view(r@) == float_views(nodes@, rels@, fs@),
{
    let mut out: Vec<FloatRef> = Vec::new();
    let mut i: usize = 0;
    while i < fs.len()
        invariant
            i <= fs.len(),
            floats_ok(fs@, nodes.len() as nat, rels.len() as nat),
            out.len() == i,
            forall|q: int| 0 <= q < i ==> (#[trigger] out@[q]).view() == float_view(nodes@, rels@, fs@[q]),
        decreases fs.len() - i,
    {
        let f = fs[i];
        proof {
            assert(fs@[i as int].hit.target < nodes.len());
        }
        let r = &rels[f.hit.rel];
        out.push(FloatRef {
            relation: f.hit.rel,
            relation_type: r.relation_type.clone(),
            from_node_id: f.hit.from,
            resolved_via: clone_opt(&r.resolved_via),
            node: context_node(&nodes[f.hit.target], RELATED_TEXT_CAP),
            figure: show_at(nodes, f.entity),
            caption: show_at(nodes, f.caption),
        });
        i = i + 1;
    }
    proof {
        assert(float_refs_view(out@) =~= float_views(nodes@, rels@, fs@));
    }
    out
}

fn reference_premises(nodes: &Vec<DocNode>, rels: &Vec<DocRelation>, hs: &Vec<Hit>) -> (r: Vec<Premise>)
    requires
        hits_ok(hs@, nodes.len() as nat, rels.len() as nat),
    ensures
        premises_view(r@) == hs@.map_values(|h: Hit| reference_premise(nodes@, rels@, h)),
{
    let mut out: Vec<Premise> = Vec::new();
    let mut i: usize = 0;
    while i < hs.len()
        invariant
            i <= hs.len(),
            hits_ok(hs@, nodes.len() as nat, rels.len() as nat),
            out.len() == i,
            forall|q: int| 0 <= q < i ==> (#[trigger] out@[q]).view() == reference_premise(nodes@, rels@, hs@[q]),
        decreases hs.len() - i,
    {
        let h = hs[i];
        proof {
            assert(hs@[i as int].target < nodes.len());
        }
        out.push(Premise {
            via: PremiseVia::Reference,
            node: context_node(&nodes[h.target], PREMISE_TEXT_CAP),
            symbol: None,
            relation: Some(related(nodes, rels, h, Direction::Outgoing)),
        });
        i = i + 1;
    }
    proof {
        assert(premises_view(out@) =~= hs@.map_values(|h: Hit| reference_premise(nodes@, rels@, h)));
    }
    out
}

fn symbol_premises(
    nodes: &Vec<DocNode>,
    index: &HashMap<i64, usize>,
    symbols: &Vec<DocSymbol>,
    slots: &Vec<(usize, Cand)>,
) -> (r: Vec<Premise>)
    requires
        index@ == id_map(nodes@),
        slots_ok(slots@, symbols.len() as nat),
        forall|q: int| 0 <= q < slots.len() ==> node_at(nodes@, (#[trigger] slots@[q]).1.def_id) is Some,
    ensures
        premises_view(r@) == slots@.map_values(|x: (usize, Cand)| symbol_premise(nodes@, symbols@, x)),
{
    let mut out: Vec<Premise> = Vec::new();
    let mut i: usize = 0;
    while i < slots.len()
        invariant
            i <= slots.len(),
            index@ == id_map(nodes@),
            slots_ok(slots@, symbols.len() as nat),
            forall|q: int| 0 <= q < slots.len() ==> node_at(nodes@, (#[trigger] slots@[q]).1.def_id) is Some,
            out.len() == i,
            forall|q: int| 0 <= q < i ==> (#[trigger] out@[q]).view() == symbol_premise(nodes@, symbols@, slots@[q]),
        decreases slots.len() - i,
    {
        let x = slots[i];
        proof {
            assert(x.0 < symbols.len());
            assert(node_at(nodes@, x.1.def_id) is Some);
        }
        let k = match lookup(index, nodes, x.1.def_id) {
            Some(k) => k,
            None => {
                proof {
                    assert(false);
                }
                0
            },
        };
        let s = &symbols[x.0];
        let via = if x.1.rank == 2 {
            PremiseVia::Occurrence
        } else {
            PremiseVia::Symbol
        };
        out.push(Premise {
            via,
            node: context_node(&nodes[k], PREMISE_TEXT_CAP),
            symbol: Some(PremiseSymbol {
                surface_form: s.surface_form.clone(),
                normalized_form: clone_opt(&s.normalized_form),
                description: clone_opt(&s.description),
                symbol_type: clone_opt(&s.symbol_type),
                origin: clone_opt(&s.origin),
            }),
            relation: None,
        });
        i = i + 1;
    }
    proof {
        assert(premises_view(out@) =~= slots@.map_values(|x: (usize, Cand)| symbol_premise(nodes@, symbols@, x)));
    }
    out
}

// ── the bundle ────────────────────────────────────────────────────────────

/// The context bundle of one node.
#[derive(Debug)]
pub struct NodeContext {
    pub node_id: i64,
    pub version_id: i64,
    /// The focus, its text capped at [`FOCUS_TEXT_CAP`].
    pub focus: ContextNode,
    /// The headings enclosing the focus, outermost first.
    pub section_path: Vec<ContextNode>,
    /// The blocks read just before the focus.
    pub before: Vec<ContextNode>,
    /// The blocks that continue the focus, up to the next structural boundary.
    pub continuation: Vec<ContextNode>,
    /// Where and why the continuation stopped (absent when the focus is not a content block).
    pub continuation_stopped_at: Option<ContinuationStop>,
    pub proofs: Vec<Related>,
    pub proves: Vec<Related>,
    pub premises: Vec<Premise>,
    pub equations: Vec<Related>,
    pub figures: Vec<FloatRef>,
    pub citations: Vec<Related>,
    pub references: Vec<Related>,
    pub notes: Vec<ContextNote>,
}

/// The content blocks of the document in reading order.
pub open spec fn ctx_content(doc: Document) -> Seq<i64> {
    content_order(doc.nodes@)
}

/// The focus's position among the content blocks, if it is one.
pub open spec fn ctx_focus_pos(doc: Document, focus: i64) -> Option<int> {
    last_pos(ctx_content(doc), focus)
}

/// The continuation of the focus and where it stopped.
pub open spec fn ctx_cont(doc: Document, focus: i64, opts: ContextOptions) -> (Seq<ContextNodeView>, StopView) {
    match ctx_focus_pos(doc, focus) {
        Some(p) => cont_scan(ctx_content(doc), doc.nodes@, p + 1, 0, 0, opts),
        None => (Seq::empty(), StopView { reason: Seq::empty(), node_id: None, kind: None }),
    }
}

/// The ids relations are taken from: the focus, then its continuation.
pub open spec fn ctx_origin(doc: Document, focus: i64, opts: ContextOptions) -> Seq<i64> {
    seq![focus] + ctx_cont(doc, focus, opts).0.map_values(|v: ContextNodeView| v.node_id)
}

/// The document's relations routed for the focus.
pub open spec fn ctx_routed(doc: Document, focus: i64, opts: ContextOptions) -> Routed {
    routed(doc.nodes@, doc.relations@, ctx_origin(doc, focus, opts), focus, doc.relations@.len() as int)
}

/// A relation list as the bundle lists it: ordered by `(from, target id)` and
/// cut at `max_related`.
pub open spec fn ctx_list(s: Seq<Hit>, opts: ContextOptions) -> Seq<Hit> {
    cap_seq(sort_hits(s), opts.max_related as nat)
}

/// The figure references: ordered, without repeats of a key, cut at `max_related`.
pub open spec fn ctx_figures(r: Routed, opts: ContextOptions) -> Seq<FloatHit> {
    cap_seq(dedup_floats(sort_floats(r.figures)), opts.max_related as nat)
}

/// Some relation list was longer than `max_related`.
pub open spec fn ctx_related_cut(r: Routed, opts: ContextOptions) -> bool {
    let m = opts.max_related as nat;
    sort_hits(r.proofs).len() > m || sort_hits(r.proves).len() > m || sort_hits(r.equations).len() > m
        || sort_hits(r.citations).len() > m || sort_hits(r.references).len() > m
        || dedup_floats(sort_floats(r.figures)).len() > m
}

/// The symbol premises: the best of each surface, ordered by surface then node id
/// (none when the document records no symbols).
pub open spec fn ctx_slots(doc: Document, focus: i64, opts: ContextOptions) -> Seq<(usize, Cand)> {
    if doc.symbols@.len() == 0 {
        Seq::empty()
    } else {
        let origin = ctx_origin(doc, focus, opts);
        sort_slots(
            doc.symbols@,
            best_upto(
                doc.nodes@,
                doc.symbols@,
                ctx_content(doc),
                ctx_focus_pos(doc, focus),
                origin,
                ctx_list(ctx_routed(doc, focus, opts).equations, opts),
                haystack(doc.nodes@, origin),
                doc.symbols@.len() as int,
            ),
        )
    }
}

/// Every premise before the cut: the definitions the focus refers to (ordered by
/// `(from, target id)`, each node once; taken before `max_related` cuts the
/// references), then the symbol premises.
pub open spec fn ctx_all_premises(doc: Document, focus: i64, opts: ContextOptions) -> Seq<PremiseView> {
    let r = ctx_routed(doc, focus, opts);
    first_targets(sort_hits(definition_hits(doc.nodes@, r.references))).map_values(
        |h: Hit| reference_premise(doc.nodes@, doc.relations@, h),
    ) + ctx_slots(doc, focus, opts).map_values(|x: (usize, Cand)| symbol_premise(doc.nodes@, doc.symbols@, x))
}

/// Which notes the bundle raises, by code order.
pub open spec fn ctx_flags(doc: Document, focus: i64, opts: ContextOptions) -> Seq<bool> {
    let fp = ctx_focus_pos(doc, focus);
    let stop = ctx_cont(doc, focus, opts).1;
    let r = ctx_routed(doc, focus, opts);
    seq![
        fp is None,
        fp is Some && (stop.reason == "max_continuation"@ || stop.reason == "max_continuation_chars"@),
        r.float_note,
        r.proves_note,
        ctx_related_cut(r, opts),
        ctx_all_premises(doc, focus, opts).len() > opts.max_premises,
    ]
}

/// What the bundle `c` of the focus `focus` in `doc` holds.
pub open spec fn bundle_holds(doc: Document, focus: i64, opts: ContextOptions, c: NodeContext) -> bool {
    let nodes = doc.nodes@;
    let rels = doc.relations@;
    let content = ctx_content(doc);
    let r = ctx_routed(doc, focus, opts);
    &&& c.node_id == focus
    &&& c.version_id == doc.version_id
    &&& c.focus.view() == shown(nodes[node_at(nodes, focus)->0], FOCUS_TEXT_CAP as nat)
    &&& match ctx_focus_pos(doc, focus) {
        Some(p) => {
            &&& refs_view(c.before@) == before_scan(content, nodes, p, opts.max_before as nat).reverse()
            &&& refs_view(c.continuation@) == ctx_cont(doc, focus, opts).0
            &&& c.continuation_stopped_at matches Some(s) && s.view() == ctx_cont(doc, focus, opts).1
            &&& refs_view(c.section_path@) == section_scan(content, nodes, p, i64::MAX as int, 4).reverse()
        },
        None => {
            &&& c.before@.len() == 0
            &&& c.continuation@.len() == 0
            &&& c.continuation_stopped_at is None
            &&& c.section_path@.len() == 0
        },
    }
    &&& related_refs_view(c.proofs@) == related_views(nodes, rels, ctx_list(r.proofs, opts), Direction::Incoming)
    &&& related_refs_view(c.proves@) == related_views(nodes, rels, ctx_list(r.proves, opts), Direction::Outgoing)
    &&& related_refs_view(c.equations@) == related_views(nodes, rels, ctx_list(r.equations, opts), Direction::Outgoing)
    &&& related_refs_view(c.citations@) == related_views(nodes, rels, ctx_list(r.citations, opts), Direction::Outgoing)
    &&& related_refs_view(c.references@) == related_views(nodes, rels, ctx_list(r.references, opts), Direction::Outgoing)
    &&& float_refs_view(c.figures@) == float_views(nodes, rels, ctx_figures(r, opts))
    &&& premises_view(c.premises@) == cap_seq(ctx_all_premises(doc, focus, opts), opts.max_premises as nat)
    &&& c.notes@.len() == raised_upto(ctx_flags(doc, focus, opts), 6).len()
    &&& forall|k: int| 0 <= k < c.notes@.len() ==> (#[trigger] c.notes@[k]).code == raised_upto(ctx_flags(doc, focus, opts), 6)[k]
        && c.notes@[k].message@ == c.notes@[k].code.message_text()
}

fn cap_related(v: &Vec<Hit>, max: usize, Ghost(n): Ghost<nat>, Ghost(nr): Ghost<nat>) -> (r: (Vec<Hit>, bool))
    requires
        hits_ok(v@, n, nr),
    ensures
        r.0@ == cap_seq(sort_hits(v@), max as nat),
        r.1 == (sort_hits(v@).len() > max),
        hits_ok(r.0@, n, nr),
{
    let mut sorted = sort_hit_vec(v);
    proof {
        lemma_hits_drawn(sorted@, v@, n, nr);
    }
    let ghost before = sorted@;
    let cut = cap_hits(&mut sorted, max);
    proof {
        assert forall|q: int| 0 <= q < sorted@.len() implies (#[trigger] sorted@[q]).target < n && sorted@[q].rel < nr by {
            if cut {
                assert(sorted@ == before.take(max as int));
            }
            assert(sorted@[q] == before[q]);
        }
    }
    (sorted, cut)
}

/// The relation lists ordered and cut, and whether any was cut.
pub struct CappedLists {
    pub proofs: Vec<Hit>,
    pub proves: Vec<Hit>,
    pub equations: Vec<Hit>,
    pub citations: Vec<Hit>,
    pub references: Vec<Hit>,
    pub figures: Vec<FloatHit>,
    pub cut: bool,
}

fn cap_lists(lists: &RouteLists, opts: &ContextOptions, Ghost(n): Ghost<nat>, Ghost(nr): Ghost<nat>) -> (c: CappedLists)
    requires
        lists.ok(n, nr),
    ensures
        c.proofs@ == ctx_list(lists.view().proofs, *opts),
        c.proves@ == ctx_list(lists.view().proves, *opts),
        c.equations@ == ctx_list(lists.view().equations, *opts),
        c.citations@ == ctx_list(lists.view().citations, *opts),
        c.references@ == ctx_list(lists.view().references, *opts),
        c.figures@ == ctx_figures(lists.view(), *opts),
        c.cut == ctx_related_cut(lists.view(), *opts),
        hits_ok(c.proofs@, n, nr),
        hits_ok(c.proves@, n, nr),
        hits_ok(c.equations@, n, nr),
        hits_ok(c.citations@, n, nr),
        hits_ok(c.references@, n, nr),
        floats_ok(c.figures@, n, nr),
{
    let (proofs, c1) = cap_related(&lists.proofs, opts.max_related, Ghost(n), Ghost(nr));
    let (proves, c2) = cap_related(&lists.proves, opts.max_related, Ghost(n), Ghost(nr));
    let (equations, c3) = cap_related(&lists.equations, opts.max_related, Ghost(n), Ghost(nr));
    let (citations, c4) = cap_related(&lists.citations, opts.max_related, Ghost(n), Ghost(nr));
    let (references, c5) = cap_related(&lists.references, opts.max_related, Ghost(n), Ghost(nr));
    let sorted_figs = sort_float_vec(&lists.figures);
    let mut figures = dedup_float_vec(&sorted_figs);
    proof {
        lemma_floats_drawn(sorted_figs@, lists.figures@, n, nr);
        lemma_floats_drawn(figures@, sorted_figs@, n, nr);
    }
    let ghost deduped = figures@;
    let c6 = cap_floats(&mut figures, opts.max_related);
    proof {
        assert forall|q: int| 0 <= q < figures@.len() implies exists|j: int| 0 <= j < deduped.len() && #[trigger] figures@[q] == deduped[j] by {
            if c6 {
                assert(figures@ == deduped.take(opts.max_related as int));
            }
            assert(figures@[q] == deduped[q]);
        }
        lemma_floats_drawn(figures@, deduped, n, nr);
    }
    CappedLists { proofs, proves, equations, citations, references, figures, cut: c1 || c2 || c3 || c4 || c5 || c6 }
}

/// Every premise before the cut, for the given content order, focus position,
/// origin ids, uncut references and cut equation references.
pub open spec fn all_premises(
    nodes: Seq<DocNode>,
    rels: Seq<DocRelation>,
    symbols: Seq<DocSymbol>,
    content: Seq<i64>,
    focus_pos: Option<int>,
    origin: Seq<i64>,
    references: Seq<Hit>,
    eqs: Seq<Hit>,
) -> Seq<PremiseView> {
    let slots = if symbols.len() == 0 {
        Seq::empty()
    } else {
        sort_slots(symbols, best_upto(nodes, symbols, content, focus_pos, origin, eqs, haystack(nodes, origin), symbols.len() as int))
    };
    first_targets(sort_hits(definition_hits(nodes, references))).map_values(|h: Hit| reference_premise(nodes, rels, h))
        + slots.map_values(|x: (usize, Cand)| symbol_premise(nodes, symbols, x))
}

fn collect_premises(
    nodes: &Vec<DocNode>,
    index: &HashMap<i64, usize>,
    rels: &Vec<DocRelation>,
    symbols: &Vec<DocSymbol>,
    content: &Vec<i64>,
    focus_pos: Option<usize>,
    origin: &Vec<i64>,
    references: &Vec<Hit>,
    eqs: &Vec<Hit>,
    max: usize,
) -> (r: (Vec<Premise>, bool))
    requires
        index@ == id_map(nodes@),
        hits_ok(references@, nodes.len() as nat, rels.len() as nat),
    ensures
        premises_view(r.0@) == cap_seq(all_premises(nodes@, rels@, symbols@, content@, match focus_pos {
            Some(p) => Some(p as int),
            None => None,
        }, origin@, references@, eqs@), max as nat),
        r.1 == (all_premises(nodes@, rels@, symbols@, content@, match focus_pos {
            Some(p) => Some(p as int),
            None => None,
        }, origin@, references@, eqs@).len() > max),
{
    let ghost n = nodes.len() as nat;
    let ghost nr = rels.len() as nat;
    let ghost fpi = match focus_pos {
        Some(p) => Some(p as int),
        None => None,
    };
    let defs = definition_hit_vec(nodes, references);
    let sorted_defs = sort_hit_vec(&defs);
    proof {
        lemma_hits_drawn(defs@, references@, n, nr);
        lemma_hits_drawn(sorted_defs@, defs@, n, nr);
    }
    let targets = first_target_vec(&sorted_defs);
    proof {
        lemma_hits_drawn(targets@, sorted_defs@, n, nr);
    }
    let mut premises = reference_premises(nodes, rels, &targets);
    let ghost slots_v: Seq<(usize, Cand)> = Seq::empty();
    if symbols.len() > 0 {
        let hay = build_haystack(nodes, index, origin);
        let best = best_symbols(nodes, index, symbols, content, focus_pos, origin, eqs, &hay);
        let slots = sort_slot_vec(symbols, &best);
        proof {
            assert forall|q: int| 0 <= q < slots.len() implies node_at(nodes@, (#[trigger] slots@[q]).1.def_id) is Some by {
                let j = choose|j: int| 0 <= j < best@.len() && slots@[q] == best@[j];
                assert(node_at(nodes@, best@[j].1.def_id) is Some);
            }
        }
        let mut sym = symbol_premises(nodes, index, symbols, &slots);
        proof {
            slots_v = slots@;
        }
        premises.append(&mut sym);
    }
    let ghost all = all_premises(nodes@, rels@, symbols@, content@, fpi, origin@, references@, eqs@);
    proof {
        if symbols.len() == 0 {
            assert(slots_v.map_values(|x: (usize, Cand)| symbol_premise(nodes@, symbols@, x)) =~= Seq::<PremiseView>::empty());
        }
        assert(premises_view(premises@) =~= all);
    }
    let cut = premises.len() > max;
    premises.truncate(max);
    proof {
        if cut {
            assert(premises_view(premises@) =~= all.take(max as int));
        }
    }
    (premises, cut)
}

/// Assembles the context bundle of node `focus_node_id` of `doc`, or nothing when
/// the document has no such node.
pub fn build_node_context(doc: &Document, focus_node_id: i64, opts: &ContextOptions) -> (r: Option<NodeContext>)
    ensures
        r is None <==> node_at(doc.nodes@, focus_node_id) is None,
        match r {
            Some(c) => bundle_holds(*doc, focus_node_id, *opts, c),
            None => true,
        },
{
    let nodes = &doc.nodes;
    let rels = &doc.relations;
    let index = id_index(nodes);
    let fk = match lookup(&index, nodes, focus_node_id) {
        Some(k) => k,
        None => return None,
    };
    let mut notes = NoteSet::new();
    let seq = content_sequence(nodes, &index);
    let focus_pos = find_last(&seq, focus_node_id);
    proof {
        lemma_last_pos(seq@, focus_node_id);
    }
    if focus_pos.is_none() {
        notes.add(ContextNoteCode::FocusIsNotAContentBlock);
    }
    let before = match focus_pos {
        Some(p) => collect_before(&seq, nodes, p, opts.max_before),
        None => Vec::new(),
    };
    let (continuation, stop) = match focus_pos {
        Some(p) => {
            let (c, st) = collect_continuation(&seq, nodes, p, opts);
            (c, Some(st))
        },
        None => (Vec::new(), None),
    };
    let cut_cont = match &stop {
        Some(st) => st.truncated(),
        None => false,
    };
    if cut_cont {
        notes.add(ContextNoteCode::ContinuationTruncated);
    }
    let section_path = match focus_pos {
        Some(p) => collect_section_path(&seq, nodes, p),
        None => Vec::new(),
    };
    let origin = origin_ids(focus_node_id, &continuation);
    proof {
        if focus_pos is None {
            assert(refs_view(continuation@) =~= Seq::<ContextNodeView>::empty());
        }
        assert(origin@ =~= ctx_origin(*doc, focus_node_id, *opts));
    }
    let lists = route_relations(nodes, &index, rels, &origin, focus_node_id);
    if lists.proves_note {
        notes.add(ContextNoteCode::ProvesTargetIsNotATheorem);
    }
    if lists.float_note {
        notes.add(ContextNoteCode::FloatEntityUnreachable);
    }
    let capped = cap_lists(&lists, opts, Ghost(nodes.len() as nat), Ghost(rels.len() as nat));
    if capped.cut {
        notes.add(ContextNoteCode::RelatedTruncated);
    }
    let (premises, cut_premises) = collect_premises(
        nodes,
        &index,
        rels,
        &doc.symbols,
        &seq,
        focus_pos,
        &origin,
        &lists.references,
        &capped.equations,
        opts.max_premises,
    );
    if cut_premises {
        notes.add(ContextNoteCode::PremisesTruncated);
    }
    proof {
        assert(notes.flags() =~= ctx_flags(*doc, focus_node_id, *opts));
    }
    let proofs = related_list(nodes, rels, &capped.proofs, Direction::Incoming);
    let proves = related_list(nodes, rels, &capped.proves, Direction::Outgoing);
    let equations = related_list(nodes, rels, &capped.equations, Direction::Outgoing);
    let citations = related_list(nodes, rels, &capped.citations, Direction::Outgoing);
    let references = related_list(nodes, rels, &capped.references, Direction::Outgoing);
    let figures = float_list(nodes, rels, &capped.figures);
    Some(NodeContext {
        node_id: focus_node_id,
        version_id: doc.version_id,
        focus: context_node(&nodes[fk], FOCUS_TEXT_CAP),
        section_path,
        before,
        continuation,
        continuation_stopped_at: stop,
        proofs,
        proves,
        premises,
        equations,
        figures,
        citations,
        references,
        notes: notes.finish(),
    })
}

fn origin_ids(focus: i64, continuation: &Vec<ContextNode>) -> (origin: Vec<i64>)
    ensures
        origin@ == seq![focus] + refs_view(continuation@).map_values(|v: ContextNodeView| v.node_id),
{
    let mut origin: Vec<i64> = Vec::new();
    origin.push(focus);
    let mut i: usize = 0;
    while i < continuation.len()
        invariant
            i <= continuation.len(),
            origin@ == seq![focus] + refs_view(continuation@).take(i as int).map_values(|v: ContextNodeView| v.node_id),
        decreases continuation.len() - i,
    {
        origin.push(continuation[i].node_id);
        proof {
            assert(refs_view(continuation@).take(i + 1) =~= refs_view(continuation@).take(i as int).push(continuation@[i as int].view()));
            assert(origin@ =~= seq![focus] + refs_view(continuation@).take(i + 1).map_values(|v: ContextNodeView| v.node_id));
        }
        i = i + 1;
    }
    proof {
        assert(refs_view(continuation@).take(continuation.len() as int) =~= refs_view(continuation@));
    }
    origin
}

// ── the focus in the reading order ────────────────────────────────────────

proof fn lemma_content_ids_contains(nodes: Seq<DocNode>, s: Seq<i64>, id: i64)
    ensures
        content_ids(nodes, s).contains(id) <==> (s.contains(id) && is_content_id(nodes, id)),
    decreases s.len(),
{
    if s.len() > 0 {
        let rest = s.drop_last();
        lemma_content_ids_contains(nodes, rest, id);
        let c = content_ids(nodes, s);
        let cr = content_ids(nodes, rest);
        if s.contains(id) && is_content_id(nodes, id) {
            let k = choose|k: int| 0 <= k < s.len() && s[k] == id;
            if k == s.len() - 1 {
                assert(c[c.len() - 1] == id);
            } else {
                assert(rest[k] == id);
                let q = choose|q: int| 0 <= q < cr.len() && cr[q] == id;
                assert(c[q] == id);
            }
        }
        if c.contains(id) {
            let q = choose|q: int| 0 <= q < c.len() && c[q] == id;
            if is_content_id(nodes, s.last()) && q == c.len() - 1 {
                assert(s[s.len() - 1] == id);
            } else {
                assert(cr[q] == id);
                let k = choose|k: int| 0 <= k < rest.len() && rest[k] == id;
                assert(s[k] == id);
            }
        }
    }
}

/// The focus stands in the content order exactly when it is a node of a content
/// kind: a content block is never lost from the reading order (not even on a
/// parent cycle), and a skeleton node (`document`, `page`, `line`) never stands in it.
pub proof fn lemma_focus_found_iff_content(doc: Document, focus: i64)
    ensures
        ctx_focus_pos(doc, focus) is Some <==> is_content_id(doc.nodes@, focus),
{
    let nodes = doc.nodes@;
    let order = reading_order_spec(nodes);
    lemma_content_ids_contains(nodes, order, focus);
    lemma_last_pos(ctx_content(doc), focus);
    if is_content_id(nodes, focus) {
        crate::context::lemma_node_at(nodes, focus);
        let k = node_at(nodes, focus)->0;
        lemma_reading_order_lists_every_node(nodes, k);
    }
}

// ── each definition once among the premises ───────────────────────────────

/// Hit `h` reaches the node at `h.target`, whose id it records.
pub open spec fn hit_consistent(nodes: Seq<DocNode>, h: Hit) -> bool {
    0 <= h.target < nodes.len() && nodes[h.target as int].id == h.target_id
}

/// Every hit of `v` is consistent.
pub open spec fn all_consistent(nodes: Seq<DocNode>, v: Seq<Hit>) -> bool {
    forall|q: int| 0 <= q < v.len() ==> hit_consistent(nodes, #[trigger] v[q])
}

proof fn lemma_consistent_drawn(nodes: Seq<DocNode>, r: Seq<Hit>, s: Seq<Hit>)
    requires
        all_consistent(nodes, s),
        drawn_from(r, s),
    ensures
        all_consistent(nodes, r),
{
    assert forall|q: int| 0 <= q < r.len() implies hit_consistent(nodes, #[trigger] r[q]) by {
        let j = choose|j: int| 0 <= j < s.len() && r[q] == s[j];
        assert(hit_consistent(nodes, s[j]));
    }
}

proof fn lemma_insert_hit_drawn(t: Seq<Hit>, x: Hit)
    ensures
        forall|q: int| 0 <= q < insert_hit(t, x).len() ==> (#[trigger] insert_hit(t, x)[q] == x || exists|j: int| 0 <= j < t.len() && insert_hit(t, x)[q] == t[j]),
    decreases t.len(),
{
    let r = insert_hit(t, x);
    if t.len() == 0 {
        assert(r =~= seq![x]);
    } else if pair_lt(hit_key(x), hit_key(t[0])) {
        assert forall|q: int| 0 <= q < r.len() implies (#[trigger] r[q] == x || exists|j: int| 0 <= j < t.len() && r[q] == t[j]) by {
            if q > 0 {
                assert(r[q] == t[q - 1]);
            }
        }
    } else {
        let rest = t.drop_first();
        lemma_insert_hit_drawn(rest, x);
        let ir = insert_hit(rest, x);
        assert(r == seq![t[0]] + ir);
        assert forall|q: int| 0 <= q < r.len() implies (#[trigger] r[q] == x || exists|j: int| 0 <= j < t.len() && r[q] == t[j]) by {
            if q == 0 {
                assert(r[0] == t[0]);
            } else {
                assert(r[q] == ir[q - 1]);
                if ir[q - 1] != x {
                    let j = choose|j: int| 0 <= j < rest.len() && ir[q - 1] == rest[j];
                    assert(rest[j] == t[j + 1]);
                }
            }
        }
    }
}

proof fn lemma_sort_hits_drawn(s: Seq<Hit>)
    ensures
        drawn_from(sort_hits(s), s),
    decreases s.len(),
{
    if s.len() > 0 {
        let prev = sort_hits(s.drop_last());
        lemma_sort_hits_drawn(s.drop_last());
        lemma_insert_hit_drawn(prev, s.last());
        let r = sort_hits(s);
        assert forall|q: int| 0 <= q < r.len() implies exists|j: int| 0 <= j < s.len() && #[trigger] r[q] == s[j] by {
            if r[q] == s.last() {
                assert(r[q] == s[s.len() - 1]);
            } else {
                let j = choose|j: int| 0 <= j < prev.len() && r[q] == prev[j];
                let i = choose|i: int| 0 <= i < s.drop_last().len() && prev[j] == s.drop_last()[i];
                assert(r[q] == s[i]);
            }
        }
    }
}

proof fn lemma_definition_hits_drawn(nodes: Seq<DocNode>, s: Seq<Hit>)
    ensures
        drawn_from(definition_hits(nodes, s), s),
    decreases s.len(),
{
    if s.len() > 0 {
        let prev = definition_hits(nodes, s.drop_last());
        lemma_definition_hits_drawn(nodes, s.drop_last());
        let r = definition_hits(nodes, s);
        assert forall|q: int| 0 <= q < r.len() implies exists|j: int| 0 <= j < s.len() && #[trigger] r[q] == s[j] by {
            if q < prev.len() {
                assert(r[q] == prev[q]);
                let i = choose|i: int| 0 <= i < s.drop_last().len() && prev[q] == s.drop_last()[i];
                assert(r[q] == s[i]);
            } else {
                assert(r[q] == s[s.len() - 1]);
            }
        }
    }
}

proof fn lemma_first_targets(s: Seq<Hit>)
    ensures
        drawn_from(first_targets(s), s),
        forall|i: int, j: int|
            0 <= i < j < first_targets(s).len() ==> (#[trigger] first_targets(s)[i]).target_id != (#[trigger] first_targets(s)[j]).target_id,
    decreases s.len(),
{
    if s.len() > 0 {
        let rest = s.drop_last();
        let prev = first_targets(rest);
        lemma_first_targets(rest);
        let r = first_targets(s);
        assert forall|q: int| 0 <= q < r.len() implies exists|j: int| 0 <= j < s.len() && #[trigger] r[q] == s[j] by {
            if q < prev.len() {
                assert(r[q] == prev[q]);
                let i = choose|i: int| 0 <= i < rest.len() && prev[q] == rest[i];
                assert(r[q] == s[i]);
            } else {
                assert(r[q] == s[s.len() - 1]);
            }
        }
        if !has_target(rest, s.last().target_id) {
            assert forall|i: int, j: int| 0 <= i < j < r.len() implies (#[trigger] r[i]).target_id != (#[trigger] r[j]).target_id by {
                if j == r.len() - 1 {
                    assert(r[i] == prev[i]);
                    let k = choose|k: int| 0 <= k < rest.len() && prev[i] == rest[k];
                    if r[i].target_id == r[j].target_id {
                        assert(rest[k].target_id == s.last().target_id);
                        assert(has_target(rest, s.last().target_id));
                    }
                } else {
                    assert(r[i] == prev[i]);
                    assert(r[j] == prev[j]);
                }
            }
        }
    }
}

proof fn lemma_routed_consistent(nodes: Seq<DocNode>, rels: Seq<DocRelation>, origin: Seq<i64>, focus: i64, m: int)
    requires
        m <= rels.len(),
        nodes.len() <= usize::MAX,
    ensures
        all_consistent(nodes, routed(nodes, rels, origin, focus, m).references),
    decreases m,
{
    if m > 0 {
        lemma_routed_consistent(nodes, rels, origin, focus, m - 1);
        let p = routed(nodes, rels, origin, focus, m - 1);
        match route(nodes, rels, origin, focus, m - 1) {
            Route::Reference(h) => {
                let r = rels[m - 1];
                crate::context::lemma_node_at(nodes, r.to_node_id);
                let v = p.references.push(h);
                let k = node_at(nodes, r.to_node_id)->0;
                assert(h.target as int == k);
                assert forall|q: int| 0 <= q < v.len() implies hit_consistent(nodes, #[trigger] v[q]) by {
                    if q < p.references.len() {
                        assert(v[q] == p.references[q]);
                    }
                }
            },
            _ => {},
        }
    }
}

/// No definition is taken twice as a premise by reference, however many of the
/// focus's (or its continuation's) relations reach it.
pub proof fn lemma_reference_premises_are_distinct(doc: Document, focus: i64, opts: ContextOptions)
    ensures
        forall|i: int, j: int|
            0 <= i < j < first_targets(sort_hits(definition_hits(doc.nodes@, ctx_routed(doc, focus, opts).references))).len()
                ==> (#[trigger] ctx_all_premises(doc, focus, opts)[i]).node.node_id
                != (#[trigger] ctx_all_premises(doc, focus, opts)[j]).node.node_id,
{
    let nodes = doc.nodes@;
    let r = ctx_routed(doc, focus, opts);
    let defs = definition_hits(nodes, r.references);
    let sorted = sort_hits(defs);
    let firsts = first_targets(sorted);
    assert(nodes.len() == doc.nodes.len());
    lemma_routed_consistent(nodes, doc.relations@, ctx_origin(doc, focus, opts), focus, doc.relations@.len() as int);
    lemma_definition_hits_drawn(nodes, r.references);
    lemma_consistent_drawn(nodes, defs, r.references);
    lemma_sort_hits_drawn(defs);
    lemma_consistent_drawn(nodes, sorted, defs);
    lemma_first_targets(sorted);
    lemma_consistent_drawn(nodes, firsts, sorted);
    let all = ctx_all_premises(doc, focus, opts);
    let refs = firsts.map_values(|h: Hit| reference_premise(nodes, doc.relations@, h));
    assert forall|i: int, j: int| 0 <= i < j < firsts.len() implies (#[trigger] all[i]).node.node_id != (#[trigger] all[j]).node.node_id by {
        assert(all[i] == refs[i]);
        assert(all[j] == refs[j]);
        assert(hit_consistent(nodes, firsts[i]));
        assert(hit_consistent(nodes, firsts[j]));
        assert(firsts[i].target_id != firsts[j].target_id);
    }
}

/// The bundle is determined by its inputs: two bundles of the same focus of the
/// same document with the same options show the same things (no iteration order
/// of an index leaks into it).
pub proof fn lemma_bundle_is_determined(doc: Document, focus: i64, opts: ContextOptions, a: NodeContext, b: NodeContext)
    requires
        bundle_holds(doc, focus, opts, a),
        bundle_holds(doc, focus, opts, b),
    ensures
        a.node_id == b.node_id,
        a.version_id == b.version_id,
        a.focus.view() == b.focus.view(),
        refs_view(a.section_path@) == refs_view(b.section_path@),
        refs_view(a.before@) == refs_view(b.before@),
        refs_view(a.continuation@) == refs_view(b.continuation@),
        match (a.continuation_stopped_at, b.continuation_stopped_at) {
            (Some(x), Some(y)) => x.view() == y.view(),
            (None, None) => true,
            _ => false,
        },
        related_refs_view(a.proofs@) == related_refs_view(b.proofs@),
        related_refs_view(a.proves@) == related_refs_view(b.proves@),
        premises_view(a.premises@) == premises_view(b.premises@),
        related_refs_view(a.equations@) == related_refs_view(b.equations@),
        float_refs_view(a.figures@) == float_refs_view(b.figures@),
        related_refs_view(a.citations@) == related_refs_view(b.citations@),
        related_refs_view(a.references@) == related_refs_view(b.references@),
        a.notes@.len() == b.notes@.len(),
        forall|k: int| 0 <= k < a.notes@.len() ==> (#[trigger] a.notes@[k]).code == b.notes@[k].code
            && a.notes@[k].message@ == b.notes@[k].message@,
{
    match ctx_focus_pos(doc, focus) {
        Some(p) => {},
        None => {
            assert(refs_view(a.section_path@) =~= refs_view(b.section_path@));
            assert(refs_view(a.before@) =~= refs_view(b.before@));
            assert(refs_view(a.continuation@) =~= refs_view(b.continuation@));
        },
    }
}

} // verus!

verus! {

// ── the shape of a bundle ─────────────────────────────────────────────────

/// The place of a note code in declaration order.
pub open spec fn note_rank(c: ContextNoteCode) -> int {
    match c {
        ContextNoteCode::FocusIsNotAContentBlock => 0,
        ContextNoteCode::ContinuationTruncated => 1,
        ContextNoteCode::FloatEntityUnreachable => 2,
        ContextNoteCode::ProvesTargetIsNotATheorem => 3,
        ContextNoteCode::RelatedTruncated => 4,
        ContextNoteCode::PremisesTruncated => 5,
    }
}

/// The node a (present) id names.
pub open spec fn node_of(nodes: Seq<DocNode>, id: i64) -> DocNode {
    nodes[node_at(nodes, id)->0]
}

/// The node named by `id` is a structural boundary.
pub open spec fn id_is_boundary(nodes: Seq<DocNode>, id: i64) -> bool {
    crate::context::is_boundary(node_of(nodes, id).kind@, node_of(nodes, id).heading_level)
}

proof fn lemma_code_rank(k: int)
    requires
        0 <= k < 6,
    ensures
        note_rank(crate::context::all_note_codes()[k]) == k,
{
    let c = crate::context::all_note_codes();
    if k == 0 {
        assert(c[0] == ContextNoteCode::FocusIsNotAContentBlock);
    } else if k == 1 {
        assert(c[1] == ContextNoteCode::ContinuationTruncated);
    } else if k == 2 {
        assert(c[2] == ContextNoteCode::FloatEntityUnreachable);
    } else if k == 3 {
        assert(c[3] == ContextNoteCode::ProvesTargetIsNotATheorem);
    } else if k == 4 {
        assert(c[4] == ContextNoteCode::RelatedTruncated);
    } else {
        assert(c[5] == ContextNoteCode::PremisesTruncated);
    }
}

proof fn lemma_raised_upto(flags: Seq<bool>, m: int)
    requires
        0 <= m <= 6,
    ensures
        forall|a: int, b: int|
            0 <= a < b < raised_upto(flags, m).len() ==> note_rank(#[trigger] raised_upto(flags, m)[a]) < note_rank(
                #[trigger] raised_upto(flags, m)[b],
            ),
        forall|a: int| 0 <= a < raised_upto(flags, m).len() ==> note_rank(#[trigger] raised_upto(flags, m)[a]) < m,
        forall|k: int|
            0 <= k < m ==> (raised_upto(flags, m).contains(#[trigger] crate::context::all_note_codes()[k])
                <==> flags[k]),
    decreases m,
{
    if m > 0 {
        lemma_raised_upto(flags, m - 1);
        lemma_code_rank(m - 1);
        let prev = raised_upto(flags, m - 1);
        let cur = raised_upto(flags, m);
        let top = crate::context::all_note_codes()[m - 1];
        assert forall|k: int| 0 <= k < m implies (cur.contains(#[trigger] crate::context::all_note_codes()[k])
            <==> flags[k]) by {
            lemma_code_rank(k);
            let ck = crate::context::all_note_codes()[k];
            if k < m - 1 {
                assert(ck != top);
                if flags[m - 1] {
                    assert(cur == prev.push(top));
                    if cur.contains(ck) {
                        let j = choose|j: int| 0 <= j < cur.len() && cur[j] == ck;
                        assert(j < prev.len());
                        assert(prev[j] == ck);
                    }
                    if prev.contains(ck) {
                        let j = choose|j: int| 0 <= j < prev.len() && prev[j] == ck;
                        assert(cur[j] == ck);
                    }
                }
            } else {
                if flags[m - 1] {
                    assert(cur[prev.len() as int] == top);
                } else if cur.contains(top) {
                    let j = choose|j: int| 0 <= j < cur.len() && cur[j] == top;
                    assert(note_rank(prev[j]) < m - 1);
                }
            }
        }
    }
}

proof fn lemma_before_scan_len(seq: Seq<i64>, nodes: Seq<DocNode>, i: int, room: nat)
    ensures
        before_scan(seq, nodes, i, room).len() <= room,
    decreases i,
{
    if i > 0 && room > 0 {
        lemma_before_scan_len(seq, nodes, i - 1, room);
        lemma_before_scan_len(seq, nodes, i - 1, (room - 1) as nat);
    }
}

proof fn lemma_section_scan_len(seq: Seq<i64>, nodes: Seq<DocNode>, i: int, min_level: int, room: nat)
    ensures
        section_scan(seq, nodes, i, min_level, room).len() <= room,
    decreases i,
{
    if i > 0 && room > 0 {
        lemma_section_scan_len(seq, nodes, i - 1, min_level, room);
        match node_at(nodes, seq[i - 1]) {
            Some(k) => match crate::context::heading_level_spec(nodes[k].kind@, nodes[k].heading_level) {
                Some(l) => lemma_section_scan_len(seq, nodes, i - 1, l as int, (room - 1) as nat),
                None => {},
            },
            None => {},
        }
    }
}

/// The continuation scan from position `i`: the blocks it takes are the next
/// blocks of the reading order, none a boundary, within the block limit; a
/// boundary stop names the block after them, an end-of-document stop comes when
/// they reach the end.
proof fn lemma_cont_scan(seq: Seq<i64>, nodes: Seq<DocNode>, i: int, taken: nat, spent: nat, opts: ContextOptions)
    requires
        0 <= i <= seq.len(),
        taken <= opts.max_continuation,
        forall|t: int| i <= t < seq.len() ==> node_at(nodes, #[trigger] seq[t]) is Some,
    ensures
        ({
            let (vs, st) = cont_scan(seq, nodes, i, taken, spent, opts);
            &&& i + vs.len() <= seq.len()
            &&& taken + vs.len() <= opts.max_continuation
            &&& forall|t: int|
                0 <= t < vs.len() ==> (#[trigger] vs[t]).node_id == seq[i + t] && !id_is_boundary(nodes, seq[i + t])
                    && vs[t].kind == node_of(nodes, seq[i + t]).kind@
            &&& st.reason == "boundary"@ ==> i + vs.len() < seq.len() && st.node_id == Some(seq[i + vs.len()])
                && id_is_boundary(nodes, seq[i + vs.len()])
            &&& st.reason == "end_of_document"@ ==> i + vs.len() == seq.len()
            &&& st.reason == "boundary"@ || st.reason == "end_of_document"@ || st.reason == "max_continuation"@
                || st.reason == "max_continuation_chars"@
        }),
    decreases seq.len() - i,
{
    reveal_strlit("boundary");
    reveal_strlit("end_of_document");
    reveal_strlit("max_continuation");
    reveal_strlit("max_continuation_chars");
    assert("boundary"@.len() == 8);
    assert("end_of_document"@.len() == 15);
    assert("max_continuation"@.len() == 16);
    assert("max_continuation_chars"@.len() == 22);
    if i < seq.len() {
        let k = node_at(nodes, seq[i])->0;
        crate::context::lemma_node_at(nodes, seq[i]);
        let n = nodes[k];
        if crate::context::is_boundary(n.kind@, n.heading_level) {
        } else if taken >= opts.max_continuation {
        } else if spent >= opts.max_continuation_chars {
        } else {
            let r = shown(n, (opts.max_continuation_chars - spent) as nat);
            if r.text_truncated {
            } else {
                let sp2 = spent + crate::context::weight(n, r);
                lemma_cont_scan(seq, nodes, i + 1, taken + 1, sp2, opts);
                let rest = cont_scan(seq, nodes, i + 1, taken + 1, sp2, opts);
                let vs = seq![r] + rest.0;
                assert forall|t: int| 0 <= t < vs.len() implies (#[trigger] vs[t]).node_id == seq[i + t]
                    && !id_is_boundary(nodes, seq[i + t]) && vs[t].kind == node_of(nodes, seq[i + t]).kind@ by {
                    if t > 0 {
                        assert(vs[t] == rest.0[t - 1]);
                        assert(i + 1 + (t - 1) == i + t);
                    }
                }
                assert(i + 1 + rest.0.len() == i + vs.len());
            }
        }
    }
}

/// Every id of the content order names a node.
proof fn lemma_content_present(doc: Document)
    ensures
        forall|t: int| 0 <= t < ctx_content(doc).len() ==> node_at(doc.nodes@, #[trigger] ctx_content(doc)[t]) is Some,
{
    let nodes = doc.nodes@;
    assert forall|t: int| 0 <= t < ctx_content(doc).len() implies node_at(nodes, #[trigger] ctx_content(doc)[t]) is Some by {
        let id = ctx_content(doc)[t];
        assert(ctx_content(doc).contains(id));
        lemma_content_ids_contains(nodes, reading_order_spec(nodes), id);
    }
}

/// Every list of a bundle stays within its limit: at most `max_before` blocks
/// before the focus, `max_continuation` after it, four enclosing headings,
/// `max_premises` premises and `max_related` items in each relation list; the
/// notes come in declaration order, each code once, each with its code's message.
pub proof fn lemma_bundle_within_limits(doc: Document, focus: i64, opts: ContextOptions, c: NodeContext)
    requires
        bundle_holds(doc, focus, opts, c),
    ensures
        c.before@.len() <= opts.max_before,
        c.continuation@.len() <= opts.max_continuation,
        c.section_path@.len() <= 4,
        c.premises@.len() <= opts.max_premises,
        c.proofs@.len() <= opts.max_related,
        c.proves@.len() <= opts.max_related,
        c.equations@.len() <= opts.max_related,
        c.figures@.len() <= opts.max_related,
        c.citations@.len() <= opts.max_related,
        c.references@.len() <= opts.max_related,
        forall|a: int, b: int|
            0 <= a < b < c.notes@.len() ==> note_rank((#[trigger] c.notes@[a]).code) < note_rank(
                (#[trigger] c.notes@[b]).code,
            ),
        forall|k: int| 0 <= k < c.notes@.len() ==> (#[trigger] c.notes@[k]).message@ == c.notes@[k].code.message_text(),
{
    let content = ctx_content(doc);
    let nodes = doc.nodes@;
    let r = ctx_routed(doc, focus, opts);
    match ctx_focus_pos(doc, focus) {
        Some(p) => {
            lemma_before_scan_len(content, nodes, p, opts.max_before as nat);
            lemma_section_scan_len(content, nodes, p, i64::MAX as int, 4);
            lemma_last_pos(content, focus);
            lemma_content_present(doc);
            lemma_cont_scan(content, nodes, p + 1, 0, 0, opts);
            assert(refs_view(c.before@).len() == c.before@.len());
            assert(refs_view(c.continuation@).len() == c.continuation@.len());
            assert(refs_view(c.section_path@).len() == c.section_path@.len());
        },
        None => {},
    }
    assert(related_refs_view(c.proofs@).len() == c.proofs@.len());
    assert(related_refs_view(c.proves@).len() == c.proves@.len());
    assert(related_refs_view(c.equations@).len() == c.equations@.len());
    assert(related_refs_view(c.citations@).len() == c.citations@.len());
    assert(related_refs_view(c.references@).len() == c.references@.len());
    assert(float_refs_view(c.figures@).len() == c.figures@.len());
    assert(premises_view(c.premises@).len() == c.premises@.len());
    let flags = ctx_flags(doc, focus, opts);
    lemma_raised_upto(flags, 6);
    let codes = raised_upto(flags, 6);
    assert forall|a: int, b: int| 0 <= a < b < c.notes@.len() implies note_rank((#[trigger] c.notes@[a]).code)
        < note_rank((#[trigger] c.notes@[b]).code) by {
        assert(c.notes@[a].code == codes[a]);
        assert(c.notes@[b].code == codes[b]);
    }
}

/// The continuation of a focus that stands in the content order is the run of
/// content blocks right after it in reading order, none of them a structural
/// boundary. It stops at a boundary (the next block, named by the stop), at the
/// end of the document (the run reaches the end) or at one of the two size
/// limits; the truncation note is raised exactly on a stop at a size limit.
pub proof fn lemma_continuation_is_the_run_after_the_focus(
    doc: Document,
    focus: i64,
    opts: ContextOptions,
    c: NodeContext,
)
    requires
        bundle_holds(doc, focus, opts, c),
        ctx_focus_pos(doc, focus) is Some,
    ensures
        ({
            let seq = ctx_content(doc);
            let p = ctx_focus_pos(doc, focus)->0;
            let k = c.continuation@.len();
            let stop = c.continuation_stopped_at->0;
            &&& seq[p] == focus
            &&& p + 1 + k <= seq.len()
            &&& forall|t: int|
                0 <= t < k ==> (#[trigger] c.continuation@[t]).node_id == seq[p + 1 + t] && !id_is_boundary(
                    doc.nodes@,
                    seq[p + 1 + t],
                )
            &&& c.continuation_stopped_at is Some
            &&& stop.reason@ == "boundary"@ ==> p + 1 + k < seq.len() && stop.node_id == Some(seq[p + 1 + k])
                && id_is_boundary(doc.nodes@, seq[p + 1 + k])
            &&& stop.reason@ == "end_of_document"@ ==> p + 1 + k == seq.len()
            &&& stop.reason@ == "boundary"@ || stop.reason@ == "end_of_document"@ || stop.reason@
                == "max_continuation"@ || stop.reason@ == "max_continuation_chars"@
            &&& (exists|j: int| 0 <= j < c.notes@.len() && (#[trigger] c.notes@[j]).code == ContextNoteCode::ContinuationTruncated)
                <==> (stop.reason@ == "max_continuation"@ || stop.reason@ == "max_continuation_chars"@)
        }),
{
    let content = ctx_content(doc);
    let nodes = doc.nodes@;
    let p = ctx_focus_pos(doc, focus)->0;
    lemma_last_pos(content, focus);
    lemma_content_present(doc);
    lemma_cont_scan(content, nodes, p + 1, 0, 0, opts);
    let cs = cont_scan(content, nodes, p + 1, 0, 0, opts);
    assert forall|t: int| 0 <= t < c.continuation@.len() implies (#[trigger] c.continuation@[t]).node_id == content[p + 1 + t]
        && !id_is_boundary(nodes, content[p + 1 + t]) by {
        assert(refs_view(c.continuation@)[t] == c.continuation@[t].view());
        assert(cs.0[t].node_id == content[p + 1 + t]);
    }
    let flags = ctx_flags(doc, focus, opts);
    lemma_raised_upto(flags, 6);
    let codes = raised_upto(flags, 6);
    lemma_code_rank(1);
    let tc = crate::context::all_note_codes()[1];
    assert(tc == ContextNoteCode::ContinuationTruncated);
    if exists|j: int| 0 <= j < c.notes@.len() && (#[trigger] c.notes@[j]).code == ContextNoteCode::ContinuationTruncated {
        let j = choose|j: int| 0 <= j < c.notes@.len() && (#[trigger] c.notes@[j]).code == ContextNoteCode::ContinuationTruncated;
        assert(codes[j] == tc);
        assert(codes.contains(tc));
    }
    if flags[1] {
        assert(codes.contains(tc));
        let j = choose|j: int| 0 <= j < codes.len() && codes[j] == tc;
        assert(c.notes@[j].code == tc);
    }
}

} // verus!

verus! {

// ── the reading side of a bundle ignores node order ───────────────────────

proof fn lemma_same_node(nodes: Seq<DocNode>, other: Seq<DocNode>, p: Seq<int>, q: Seq<int>, id: i64)
    requires
        node_ids_unique(nodes),
        relisted(nodes, other, p, q),
    ensures
        node_at(other, id) is Some <==> node_at(nodes, id) is Some,
        node_at(nodes, id) is Some ==> other[node_at(other, id)->0] == nodes[node_at(nodes, id)->0],
{
    lemma_relisted_node_at(nodes, other, p, q, id);
    crate::context::lemma_node_at(nodes, id);
}

proof fn lemma_content_ids_same(nodes: Seq<DocNode>, other: Seq<DocNode>, p: Seq<int>, q: Seq<int>, s: Seq<i64>)
    requires
        node_ids_unique(nodes),
        relisted(nodes, other, p, q),
    ensures
        content_ids(other, s) == content_ids(nodes, s),
    decreases s.len(),
{
    if s.len() > 0 {
        lemma_content_ids_same(nodes, other, p, q, s.drop_last());
        lemma_same_node(nodes, other, p, q, s.last());
    }
}

proof fn lemma_before_same(nodes: Seq<DocNode>, other: Seq<DocNode>, p: Seq<int>, q: Seq<int>, seq: Seq<i64>, i: int, room: nat)
    requires
        node_ids_unique(nodes),
        relisted(nodes, other, p, q),
    ensures
        before_scan(seq, other, i, room) == before_scan(seq, nodes, i, room),
    decreases i,
{
    if i > 0 && room > 0 {
        lemma_same_node(nodes, other, p, q, seq[i - 1]);
        lemma_before_same(nodes, other, p, q, seq, i - 1, room);
        lemma_before_same(nodes, other, p, q, seq, i - 1, (room - 1) as nat);
    }
}

proof fn lemma_section_same(nodes: Seq<DocNode>, other: Seq<DocNode>, p: Seq<int>, q: Seq<int>, seq: Seq<i64>, i: int, min_level: int, room: nat)
    requires
        node_ids_unique(nodes),
        relisted(nodes, other, p, q),
    ensures
        section_scan(seq, other, i, min_level, room) == section_scan(seq, nodes, i, min_level, room),
    decreases i,
{
    if i > 0 && room > 0 {
        lemma_same_node(nodes, other, p, q, seq[i - 1]);
        lemma_section_same(nodes, other, p, q, seq, i - 1, min_level, room);
        match node_at(nodes, seq[i - 1]) {
            Some(k) => match crate::context::heading_level_spec(nodes[k].kind@, nodes[k].heading_level) {
                Some(l) => lemma_section_same(nodes, other, p, q, seq, i - 1, l as int, (room - 1) as nat),
                None => {},
            },
            None => {},
        }
    }
}

proof fn lemma_cont_same(
    nodes: Seq<DocNode>,
    other: Seq<DocNode>,
    p: Seq<int>,
    q: Seq<int>,
    seq: Seq<i64>,
    i: int,
    taken: nat,
    spent: nat,
    opts: ContextOptions,
)
    requires
        node_ids_unique(nodes),
        relisted(nodes, other, p, q),
    ensures
        cont_scan(seq, other, i, taken, spent, opts) == cont_scan(seq, nodes, i, taken, spent, opts),
    decreases seq.len() - i,
{
    if 0 <= i < seq.len() {
        lemma_same_node(nodes, other, p, q, seq[i]);
        lemma_cont_same(nodes, other, p, q, seq, i + 1, taken, spent, opts);
        match node_at(nodes, seq[i]) {
            Some(k) => {
                let n = nodes[k];
                let r = shown(n, (opts.max_continuation_chars - spent) as nat);
                lemma_cont_same(nodes, other, p, q, seq, i + 1, taken + 1, spent + crate::context::weight(n, r), opts);
            },
            None => {},
        }
    }
}

/// The reading side of a bundle does not depend on the order in which the
/// document lists its nodes: with ids unique and the focus among them, the
/// focus, the blocks before it, its continuation and where that stops, and its
/// enclosing headings are the same for any listing of the same nodes.
pub proof fn lemma_reading_side_ignores_node_order(
    doc: Document,
    doc2: Document,
    p: Seq<int>,
    q: Seq<int>,
    focus: i64,
    opts: ContextOptions,
    c: NodeContext,
    c2: NodeContext,
)
    requires
        node_ids_unique(doc.nodes@),
        relisted(doc.nodes@, doc2.nodes@, p, q),
        node_at(doc.nodes@, focus) is Some,
        bundle_holds(doc, focus, opts, c),
        bundle_holds(doc2, focus, opts, c2),
    ensures
        c2.focus.view() == c.focus.view(),
        refs_view(c2.before@) == refs_view(c.before@),
        refs_view(c2.continuation@) == refs_view(c.continuation@),
        c2.continuation_stopped_at is Some <==> c.continuation_stopped_at is Some,
        c.continuation_stopped_at is Some ==> c2.continuation_stopped_at->0.view() == c.continuation_stopped_at->0.view(),
        refs_view(c2.section_path@) == refs_view(c.section_path@),
{
    let nodes = doc.nodes@;
    let other = doc2.nodes@;
    lemma_same_node(nodes, other, p, q, focus);
    lemma_reading_order_ignores_listing_order(nodes, other, p, q);
    lemma_content_ids_same(nodes, other, p, q, reading_order_spec(nodes));
    assert(ctx_content(doc2) == ctx_content(doc));
    let content = ctx_content(doc);
    match ctx_focus_pos(doc, focus) {
        Some(fp) => {
            lemma_before_same(nodes, other, p, q, content, fp, opts.max_before as nat);
            lemma_section_same(nodes, other, p, q, content, fp, i64::MAX as int, 4);
            lemma_cont_same(nodes, other, p, q, content, fp + 1, 0, 0, opts);
        },
        None => {},
    }
}

} // verus!

verus! {

/// A continuation never runs into a structural boundary: none of its blocks is a
/// definition, theorem, lemma, proposition, corollary, remark, example, proof,
/// section, subsection, abstract, front matter, bibliography, bibliography
/// entry or figure or table caption, nor a heading that declares its level.
pub proof fn lemma_continuation_holds_no_boundary(doc: Document, focus: i64, opts: ContextOptions, c: NodeContext)
    requires
        bundle_holds(doc, focus, opts, c),
    ensures
        forall|t: int|
            0 <= t < c.continuation@.len() ==> {
                let k = (#[trigger] c.continuation@[t]).kind@;
                &&& !(k == "definition"@ || k == "theorem"@ || k == "lemma"@ || k == "proposition"@ || k == "corollary"@ || k == "remark"@ || k == "example"@ || k == "proof"@ || k == "section"@ || k == "subsection"@ || k == "abstract"@ || k == "front_matter"@ || k == "bibliography"@ || k == "bibliography_entry"@ || k == "figure_caption"@ || k == "table_caption"@)
                &&& !(k == "heading"@ && node_of(doc.nodes@, c.continuation@[t].node_id).heading_level is Some)
            },
{
    reveal_strlit("definition");
    assert("definition"@.len() == 10);
    reveal_strlit("theorem");
    assert("theorem"@.len() == 7);
    reveal_strlit("lemma");
    assert("lemma"@.len() == 5);
    reveal_strlit("proposition");
    assert("proposition"@.len() == 11);
    reveal_strlit("corollary");
    assert("corollary"@.len() == 9);
    reveal_strlit("remark");
    assert("remark"@.len() == 6);
    reveal_strlit("example");
    assert("example"@.len() == 7);
    reveal_strlit("proof");
    assert("proof"@.len() == 5);
    reveal_strlit("section");
    assert("section"@.len() == 7);
    reveal_strlit("subsection");
    assert("subsection"@.len() == 10);
    reveal_strlit("abstract");
    assert("abstract"@.len() == 8);
    reveal_strlit("front_matter");
    assert("front_matter"@.len() == 12);
    reveal_strlit("bibliography");
    assert("bibliography"@.len() == 12);
    reveal_strlit("bibliography_entry");
    assert("bibliography_entry"@.len() == 18);
    reveal_strlit("figure_caption");
    assert("figure_caption"@.len() == 14);
    reveal_strlit("table_caption");
    assert("table_caption"@.len() == 13);
    reveal_strlit("heading");
    assert("heading"@.len() == 7);
    assert("theorem"@[0] != "heading"@[0]);
    assert("example"@[0] != "heading"@[0]);
    assert("section"@[0] != "heading"@[0]);
    match ctx_focus_pos(doc, focus) {
        Some(p) => {
            let content = ctx_content(doc);
            let nodes = doc.nodes@;
            lemma_last_pos(content, focus);
            lemma_content_present(doc);
            lemma_cont_scan(content, nodes, p + 1, 0, 0, opts);
            let cs = cont_scan(content, nodes, p + 1, 0, 0, opts);
            assert forall|t: int| 0 <= t < c.continuation@.len() implies {
                let k = (#[trigger] c.continuation@[t]).kind@;
                &&& !(k == "definition"@ || k == "theorem"@ || k == "lemma"@ || k == "proposition"@ || k == "corollary"@ || k == "remark"@ || k == "example"@ || k == "proof"@ || k == "section"@ || k == "subsection"@ || k == "abstract"@ || k == "front_matter"@ || k == "bibliography"@ || k == "bibliography_entry"@ || k == "figure_caption"@ || k == "table_caption"@)
                &&& !(k == "heading"@ && node_of(doc.nodes@, c.continuation@[t].node_id).heading_level is Some)
            } by {
                assert(refs_view(c.continuation@)[t] == c.continuation@[t].view());
                assert(cs.0[t].node_id == content[p + 1 + t]);
                assert(cs.0[t].kind == node_of(nodes, content[p + 1 + t]).kind@);
            }
        },
        None => {},
    }
}

} // verus!
