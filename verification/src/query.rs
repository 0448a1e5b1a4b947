//! The SQL of the entry list, the entry search and the full-text search, built as
//! plain values: the statement text with `?` placeholders and the values bound to
//! them, in order.

use vstd::prelude::*;

use crate::entries::{build_fts_match_expr, fts_match_spec, like_escape, like_pattern};
use crate::models::strings_view;
use crate::text::{char_count, from_chars, is_lit, push_lit, split_whitespace, to_chars, words};

verus! {

/// How several tags of a filter combine.
#[derive(Clone, Copy, PartialEq, Eq, Structural, Debug)]
pub enum TagMatch {
    /// An entry with any of the tags.
    Or,
    /// An entry with all of the tags.
    And,
}

/// The metadata filter of the entry list and search; every axis that is set
/// narrows the result (the axes combine with AND).
#[derive(Debug)]
pub struct EntryFilter {
    /// Entry types, any of which matches; empty = no restriction.
    pub entry_types: Vec<String>,
    pub year_min: Option<i64>,
    pub year_max: Option<i64>,
    pub starred: Option<bool>,
    /// Has a PDF attachment (`Some(true)`), has none (`Some(false)`).
    pub has_attachment: Option<bool>,
    pub tag_ids: Vec<i64>,
    pub tag_match: TagMatch,
}

impl EntryFilter {
    /// The filter that restricts nothing.
    pub fn unrestricted() -> (f: EntryFilter)
        ensures
            f.entry_types@.len() == 0,
            f.year_min is None,
            f.year_max is None,
            f.starred is None,
            f.has_attachment is None,
            f.tag_ids@.len() == 0,
            f.tag_match == TagMatch::Or,
    {
        EntryFilter {
            entry_types: Vec::new(),
            year_min: None,
            year_max: None,
            starred: None,
            has_attachment: None,
            tag_ids: Vec::new(),
            tag_match: TagMatch::Or,
        }
    }
}

/// A value bound to a placeholder.
#[derive(Debug)]
pub enum SqlArg {
    Int(i64),
    Text(String),
}

/// The mathematical value of a bound value.
pub enum ArgView {
    Int(i64),
    Text(Seq<char>),
}

/// A statement: its text and the values of its placeholders, in order.
#[derive(Debug)]
pub struct SqlQuery {
    pub sql: String,
    pub args: Vec<SqlArg>,
}

/// The view of a bound value.
pub open spec fn arg_view(a: SqlArg) -> ArgView {
    match a {
        SqlArg::Int(i) => ArgView::Int(i),
        SqlArg::Text(s) => ArgView::Text(s@),
    }
}

/// The views of bound values.
pub open spec fn args_view(v: Seq<SqlArg>) -> Seq<ArgView> {
    v.map_values(|a: SqlArg| arg_view(a))
}

/// A piece of a statement: text and the values of its placeholders.
pub struct Frag {
    pub text: Seq<char>,
    pub args: Seq<ArgView>,
}

/// Text with no placeholder.
pub open spec fn lit(t: Seq<char>) -> Frag {
    Frag { text: t, args: Seq::empty() }
}

/// One placeholder bound to `a`.
pub open spec fn bind(a: ArgView) -> Frag {
    Frag { text: seq!['?'], args: seq![a] }
}

/// One piece after another.
pub open spec fn cat(a: Frag, b: Frag) -> Frag {
    Frag { text: a.text + b.text, args: a.args + b.args }
}

/// Nothing.
pub open spec fn empty_frag() -> Frag {
    Frag { text: Seq::empty(), args: Seq::empty() }
}

/// Placeholders for `vals`, separated by `", "`.
pub open spec fn bind_list(vals: Seq<ArgView>) -> Frag
    decreases vals.len(),
{
    if vals.len() == 0 {
        empty_frag()
    } else if vals.len() == 1 {
        bind(vals[0])
    } else {
        cat(cat(bind_list(vals.drop_last()), lit(", "@)), bind(vals.last()))
    }
}

/// Texts as bound values.
pub open spec fn text_args(v: Seq<Seq<char>>) -> Seq<ArgView> {
    v.map_values(|s: Seq<char>| ArgView::Text(s))
}

/// Integers as bound values.
pub open spec fn int_args(v: Seq<i64>) -> Seq<ArgView> {
    v.map_values(|i: i64| ArgView::Int(i))
}

/// One ` AND e.id IN (... tag_id = ?)` per tag.
pub open spec fn each_tag(tags: Seq<i64>) -> Frag
    decreases tags.len(),
{
    if tags.len() == 0 {
        empty_frag()
    } else {
        cat(
            each_tag(tags.drop_last()),
            cat(
                cat(
                    lit(" AND e.id IN (SELECT entry_id FROM entry_tags WHERE tag_id = "@),
                    bind(ArgView::Int(tags.last())),
                ),
                lit(")"@),
            ),
        )
    }
}

/// The entry-type clause of a filter.
pub open spec fn types_frag(f: EntryFilter) -> Frag {
    if f.entry_types@.len() == 0 {
        empty_frag()
    } else {
        cat(
            cat(lit(" AND e.entry_type IN ("@), bind_list(text_args(strings_view(f.entry_types@)))),
            lit(")"@),
        )
    }
}

/// The year clauses of a filter.
pub open spec fn years_frag(f: EntryFilter) -> Frag {
    let ymin = match f.year_min {
        Some(y) => cat(lit(" AND e.year >= "@), bind(ArgView::Int(y))),
        None => empty_frag(),
    };
    let ymax = match f.year_max {
        Some(y) => cat(lit(" AND e.year <= "@), bind(ArgView::Int(y))),
        None => empty_frag(),
    };
    cat(ymin, ymax)
}

/// The starred and attachment clauses of a filter.
pub open spec fn flags_frag(f: EntryFilter) -> Frag {
    let starred = match f.starred {
        Some(true) => lit(" AND e.starred = 1"@),
        Some(false) => lit(" AND e.starred = 0"@),
        None => empty_frag(),
    };
    let att = match f.has_attachment {
        Some(true) => lit(
            " AND EXISTS (SELECT 1 FROM attachments a WHERE a.entry_id = e.id AND a.mime_type LIKE '%pdf%')"@,
        ),
        Some(false) => lit(
            " AND NOT EXISTS (SELECT 1 FROM attachments a WHERE a.entry_id = e.id AND a.mime_type LIKE '%pdf%')"@,
        ),
        None => empty_frag(),
    };
    cat(starred, att)
}

/// The tag clauses of a filter.
pub open spec fn tags_frag(f: EntryFilter) -> Frag {
    if f.tag_ids@.len() == 0 {
        empty_frag()
    } else {
        match f.tag_match {
            TagMatch::Or => cat(
                cat(
                    lit(" AND e.id IN (SELECT entry_id FROM entry_tags WHERE tag_id IN ("@),
                    bind_list(int_args(f.tag_ids@)),
                ),
                lit("))"@),
            ),
            TagMatch::And => each_tag(f.tag_ids@),
        }
    }
}

/// The clauses of a filter, each starting with ` AND`, for entries aliased `e`;
/// nothing for an unrestricted filter.
pub open spec fn filter_frag(f: EntryFilter) -> Frag {
    cat(cat(cat(types_frag(f), years_frag(f)), flags_frag(f)), tags_frag(f))
}

/// A statement under construction.
pub struct QueryText {
    pub text: Vec<char>,
    pub args: Vec<SqlArg>,
}

impl QueryText {
    /// The piece built so far.
    pub open spec fn frag(&self) -> Frag {
        Frag { text: self.text@, args: args_view(self.args@) }
    }

    /// Starts a statement with `head`.
    pub fn start(head: &str) -> (q: QueryText)
        ensures
            q.frag() == lit(head@),
    {
        let q = QueryText { text: to_chars(head), args: Vec::new() };
        assert(q.frag().args =~= Seq::<ArgView>::empty());
        q
    }

    /// Appends text.
    pub fn push(&mut self, t: &str)
        ensures
            final(self).frag() == cat(old(self).frag(), lit(t@)),
    {
        push_lit(&mut self.text, t);
        assert(final(self).frag().args =~= old(self).frag().args + Seq::<ArgView>::empty());
    }

    /// Appends a placeholder bound to `a`.
    pub fn push_bind(&mut self, a: SqlArg)
        ensures
            final(self).frag() == cat(old(self).frag(), bind(arg_view(a))),
    {
        let ghost before_text = self.text@;
        self.text.push('?');
        let ghost before = self.args@;
        self.args.push(a);
        proof {
            assert(self.text@ =~= before_text + seq!['?']);
            assert(args_view(self.args@) =~= args_view(before) + seq![arg_view(a)]);
        }
    }

    /// The finished statement.
    pub fn finish(self) -> (q: SqlQuery)
        ensures
            q.sql@ == self.frag().text,
            args_view(q.args@) == self.frag().args,
    {
        SqlQuery { sql: from_chars(&self.text), args: self.args }
    }
}

proof fn lemma_cat_assoc(a: Frag, b: Frag, c: Frag)
    ensures
        cat(cat(a, b), c) == cat(a, cat(b, c)),
{
    assert(cat(cat(a, b), c).text =~= cat(a, cat(b, c)).text);
    assert(cat(cat(a, b), c).args =~= cat(a, cat(b, c)).args);
}

proof fn lemma_cat_empty(a: Frag)
    ensures
        cat(a, empty_frag()) == a,
{
    assert(cat(a, empty_frag()).text =~= a.text);
    assert(cat(a, empty_frag()).args =~= a.args);
}

/// Appends the placeholders of a list of texts, separated by `", "`.
fn push_text_list(q: &mut QueryText, vals: &Vec<String>)
    ensures
        final(q).frag() == cat(old(q).frag(), bind_list(text_args(strings_view(vals@)))),
{
    let ghost start = q.frag();
    let mut i: usize = 0;
    proof {
        lemma_cat_empty(start);
        assert(text_args(strings_view(vals@)).subrange(0, 0) =~= Seq::<ArgView>::empty());
    }
    while i < vals.len()
        invariant
            i <= vals.len(),
            q.frag() == cat(start, bind_list(text_args(strings_view(vals@)).subrange(0, i as int))),
        decreases vals.len() - i,
    {
        let ghost all = text_args(strings_view(vals@));
        let ghost pre = all.subrange(0, i as int);
        let ghost next = all.subrange(0, i + 1);
        proof {
            assert(next.drop_last() =~= pre);
            assert(next.last() == ArgView::Text(vals@[i as int]@));
        }
        if i == 0 {
            q.push_bind(SqlArg::Text(vals[i].clone()));
            proof {
                assert(pre =~= Seq::<ArgView>::empty());
                lemma_cat_empty(start);
            }
        } else {
            q.push(", ");
            q.push_bind(SqlArg::Text(vals[i].clone()));
            proof {
                lemma_cat_assoc(start, bind_list(pre), lit(", "@));
                lemma_cat_assoc(start, cat(bind_list(pre), lit(", "@)), bind(next.last()));
            }
        }
        i = i + 1;
    }
    proof {
        assert(text_args(strings_view(vals@)).subrange(0, vals.len() as int) =~= text_args(
            strings_view(vals@),
        ));
    }
}

/// Appends the placeholders of a list of integers, separated by `", "`.
fn push_int_list(q: &mut QueryText, vals: &Vec<i64>)
    ensures
        final(q).frag() == cat(old(q).frag(), bind_list(int_args(vals@))),
{
    let ghost start = q.frag();
    let mut i: usize = 0;
    proof {
        lemma_cat_empty(start);
        assert(int_args(vals@).subrange(0, 0) =~= Seq::<ArgView>::empty());
    }
    while i < vals.len()
        invariant
            i <= vals.len(),
            q.frag() == cat(start, bind_list(int_args(vals@).subrange(0, i as int))),
        decreases vals.len() - i,
    {
        let ghost all = int_args(vals@);
        let ghost pre = all.subrange(0, i as int);
        let ghost next = all.subrange(0, i + 1);
        proof {
            assert(next.drop_last() =~= pre);
            assert(next.last() == ArgView::Int(vals@[i as int]));
        }
        if i == 0 {
            q.push_bind(SqlArg::Int(vals[i]));
            proof {
                assert(pre =~= Seq::<ArgView>::empty());
                lemma_cat_empty(start);
            }
        } else {
            q.push(", ");
            q.push_bind(SqlArg::Int(vals[i]));
            proof {
                lemma_cat_assoc(start, bind_list(pre), lit(", "@));
                lemma_cat_assoc(start, cat(bind_list(pre), lit(", "@)), bind(next.last()));
            }
        }
        i = i + 1;
    }
    proof {
        assert(int_args(vals@).subrange(0, vals.len() as int) =~= int_args(vals@));
    }
}

fn push_types(q: &mut QueryText, filter: &EntryFilter)
    ensures
        final(q).frag() == cat(old(q).frag(), types_frag(*filter)),
{
    if filter.entry_types.len() > 0 {
        let ghost s0 = q.frag();
        q.push(" AND e.entry_type IN (");
        push_text_list(q, &filter.entry_types);
        q.push(")");
        proof {
            let a = lit(" AND e.entry_type IN ("@);
            let b = bind_list(text_args(strings_view(filter.entry_types@)));
            lemma_cat_assoc(s0, a, b);
            lemma_cat_assoc(s0, cat(a, b), lit(")"@));
        }
    } else {
        proof {
            lemma_cat_empty(q.frag());
        }
    }
}

fn push_years(q: &mut QueryText, filter: &EntryFilter)
    ensures
        final(q).frag() == cat(old(q).frag(), years_frag(*filter)),
{
    let ghost s0 = q.frag();
    match filter.year_min {
        Some(y) => {
            q.push(" AND e.year >= ");
            q.push_bind(SqlArg::Int(y));
            proof {
                lemma_cat_assoc(s0, lit(" AND e.year >= "@), bind(ArgView::Int(y)));
            }
        },
        None => {
            proof {
                lemma_cat_empty(s0);
            }
        },
    }
    let ghost s1 = q.frag();
    match filter.year_max {
        Some(y) => {
            q.push(" AND e.year <= ");
            q.push_bind(SqlArg::Int(y));
            proof {
                lemma_cat_assoc(s1, lit(" AND e.year <= "@), bind(ArgView::Int(y)));
            }
        },
        None => {
            proof {
                lemma_cat_empty(s1);
            }
        },
    }
    proof {
        let f = *filter;
        let ymin = match f.year_min {
            Some(y) => cat(lit(" AND e.year >= "@), bind(ArgView::Int(y))),
            None => empty_frag(),
        };
        let ymax = match f.year_max {
            Some(y) => cat(lit(" AND e.year <= "@), bind(ArgView::Int(y))),
            None => empty_frag(),
        };
        lemma_cat_assoc(s0, ymin, ymax);
    }
}

fn push_flags(q: &mut QueryText, filter: &EntryFilter)
    ensures
        final(q).frag() == cat(old(q).frag(), flags_frag(*filter)),
{
    let ghost s0 = q.frag();
    match filter.starred {
        Some(true) => q.push(" AND e.starred = 1"),
        Some(false) => q.push(" AND e.starred = 0"),
        None => {
            proof {
                lemma_cat_empty(s0);
            }
        },
    }
    let ghost s1 = q.frag();
    match filter.has_attachment {
        Some(true) => q.push(
            " AND EXISTS (SELECT 1 FROM attachments a WHERE a.entry_id = e.id AND a.mime_type LIKE '%pdf%')",
        ),
        Some(false) => q.push(
            " AND NOT EXISTS (SELECT 1 FROM attachments a WHERE a.entry_id = e.id AND a.mime_type LIKE '%pdf%')",
        ),
        None => {
            proof {
                lemma_cat_empty(s1);
            }
        },
    }
    proof {
        let f = *filter;
        let starred = match f.starred {
            Some(true) => lit(" AND e.starred = 1"@),
            Some(false) => lit(" AND e.starred = 0"@),
            None => empty_frag(),
        };
        let att = match f.has_attachment {
            Some(true) => lit(
                " AND EXISTS (SELECT 1 FROM attachments a WHERE a.entry_id = e.id AND a.mime_type LIKE '%pdf%')"@,
            ),
            Some(false) => lit(
                " AND NOT EXISTS (SELECT 1 FROM attachments a WHERE a.entry_id = e.id AND a.mime_type LIKE '%pdf%')"@,
            ),
            None => empty_frag(),
        };
        lemma_cat_assoc(s0, starred, att);
    }
}

fn push_tags(q: &mut QueryText, filter: &EntryFilter)
    ensures
        final(q).frag() == cat(old(q).frag(), tags_frag(*filter)),
{
    let ghost s0 = q.frag();
    if filter.tag_ids.len() > 0 {
        match filter.tag_match {
            TagMatch::Or => {
                q.push(" AND e.id IN (SELECT entry_id FROM entry_tags WHERE tag_id IN (");
                push_int_list(q, &filter.tag_ids);
                q.push("))");
                proof {
                    let a = lit(" AND e.id IN (SELECT entry_id FROM entry_tags WHERE tag_id IN ("@);
                    let b = bind_list(int_args(filter.tag_ids@));
                    lemma_cat_assoc(s0, a, b);
                    lemma_cat_assoc(s0, cat(a, b), lit("))"@));
                }
            },
            TagMatch::And => {
                let mut i: usize = 0;
                proof {
                    lemma_cat_empty(s0);
                    assert(filter.tag_ids@.subrange(0, 0) =~= Seq::<i64>::empty());
                }
                while i < filter.tag_ids.len()
                    invariant
                        i <= filter.tag_ids.len(),
                        q.frag() == cat(s0, each_tag(filter.tag_ids@.subrange(0, i as int))),
                    decreases filter.tag_ids.len() - i,
                {
                    let ghost pre = filter.tag_ids@.subrange(0, i as int);
                    let ghost next = filter.tag_ids@.subrange(0, i + 1);
                    proof {
                        assert(next.drop_last() =~= pre);
                    }
                    q.push(" AND e.id IN (SELECT entry_id FROM entry_tags WHERE tag_id = ");
                    q.push_bind(SqlArg::Int(filter.tag_ids[i]));
                    q.push(")");
                    proof {
                        let a = lit(" AND e.id IN (SELECT entry_id FROM entry_tags WHERE tag_id = "@);
                        let b = bind(ArgView::Int(next.last()));
                        let c = lit(")"@);
                        lemma_cat_assoc(cat(s0, each_tag(pre)), a, b);
                        lemma_cat_assoc(cat(s0, each_tag(pre)), cat(a, b), c);
                        lemma_cat_assoc(s0, each_tag(pre), cat(cat(a, b), c));
                    }
                    i = i + 1;
                }
                proof {
                    assert(filter.tag_ids@.subrange(0, filter.tag_ids.len() as int)
                        =~= filter.tag_ids@);
                }
            },
        }
    } else {
        proof {
            lemma_cat_empty(s0);
        }
    }
}

/// Appends the clauses of `filter` (see [`filter_frag`]).
pub fn push_filter(q: &mut QueryText, filter: &EntryFilter)
    ensures
        final(q).frag() == cat(old(q).frag(), filter_frag(*filter)),
{
    let ghost s0 = q.frag();
    push_types(q, filter);
    push_years(q, filter);
    push_flags(q, filter);
    push_tags(q, filter);
    proof {
        let f = *filter;
        lemma_cat_assoc(s0, types_frag(f), years_frag(f));
        lemma_cat_assoc(s0, cat(types_frag(f), years_frag(f)), flags_frag(f));
        lemma_cat_assoc(s0, cat(cat(types_frag(f), years_frag(f)), flags_frag(f)), tags_frag(f));
    }
}

/// The view is the trash view.
pub open spec fn is_trash(view: Option<Seq<char>>) -> bool {
    view == Some("trash"@)
}

/// Whether `view` names the trash view.
pub fn is_trash_view(view: Option<&str>) -> (r: bool)
    ensures
        r == (match view {
            Some(v) => v@ == "trash"@,
            None => false,
        }),
{
    match view {
        Some(v) => is_lit(&to_chars(v), "trash"),
        None => false,
    }
}

// ── statements ────────────────────────────────────────────────────────────

/// `base` followed by text `t`.
pub open spec fn then_lit(base: Frag, t: Seq<char>) -> Frag {
    cat(base, lit(t))
}

/// `base` followed by `<open>?)` for `value` when it is given.
pub open spec fn then_scope(base: Frag, open: Seq<char>, value: Option<i64>) -> Frag {
    match value {
        Some(id) => cat(cat(cat(base, lit(open)), bind(ArgView::Int(id))), lit(")"@)),
        None => base,
    }
}

/// Appends `<open>?)` bound to `value` when it is given.
fn push_scope(q: &mut QueryText, open: &str, value: Option<i64>)
    ensures
        final(q).frag() == then_scope(old(q).frag(), open@, value),
{
    match value {
        Some(id) => {
            q.push(open);
            q.push_bind(SqlArg::Int(id));
            q.push(")");
        },
        None => {},
    }
}

/// The selection of the entry list: the trash or the live entries; one sidebar
/// scope (a tag, else a collection, else the starred or unfiled view); the filter;
/// newest first (by deletion time in the trash).
pub open spec fn entry_list_frag(
    collection_id: Option<i64>,
    tag_id: Option<i64>,
    view: Option<Seq<char>>,
    f: EntryFilter,
) -> Frag {
    let trash = is_trash(view);
    let head = lit(
        "SELECT e.id FROM entries e WHERE "@ + if trash {
            "e.deleted_at IS NOT NULL"@
        } else {
            "e.deleted_at IS NULL"@
        },
    );
    let scoped = if tag_id is Some {
        then_scope(head, " AND e.id IN (SELECT entry_id FROM entry_tags WHERE tag_id = "@, tag_id)
    } else if collection_id is Some {
        then_scope(
            head,
            " AND e.id IN (SELECT entry_id FROM entry_collections WHERE collection_id = "@,
            collection_id,
        )
    } else if view == Some("starred"@) {
        then_lit(head, " AND e.starred = 1"@)
    } else if view == Some("unfiled"@) {
        then_lit(
            head,
            " AND NOT EXISTS (SELECT 1 FROM entry_collections ec WHERE ec.entry_id = e.id)"@,
        )
    } else {
        head
    };
    then_lit(
        cat(scoped, filter_frag(f)),
        if trash {
            " ORDER BY e.deleted_at DESC"@
        } else {
            " ORDER BY e.created_at DESC"@
        },
    )
}

/// The view given as text.
pub open spec fn view_text(view: Option<&str>) -> Option<Seq<char>> {
    match view {
        Some(v) => Some(v@),
        None => None,
    }
}

/// The statement listing entry ids for the sidebar selection and filter.
pub fn entry_list_query(
    collection_id: Option<i64>,
    tag_id: Option<i64>,
    view: Option<&str>,
    filter: &EntryFilter,
) -> (r: SqlQuery)
    ensures
        r.sql@ == entry_list_frag(collection_id, tag_id, view_text(view), *filter).text,
        args_view(r.args@) == entry_list_frag(collection_id, tag_id, view_text(view), *filter).args,
{
    let trash = is_trash_view(view);
    let mut q = if trash {
        QueryText::start("SELECT e.id FROM entries e WHERE e.deleted_at IS NOT NULL")
    } else {
        QueryText::start("SELECT e.id FROM entries e WHERE e.deleted_at IS NULL")
    };
    proof {
        reveal_strlit("SELECT e.id FROM entries e WHERE e.deleted_at IS NOT NULL");
        reveal_strlit("SELECT e.id FROM entries e WHERE e.deleted_at IS NULL");
        reveal_strlit("SELECT e.id FROM entries e WHERE ");
        reveal_strlit("e.deleted_at IS NOT NULL");
        reveal_strlit("e.deleted_at IS NULL");
        assert("SELECT e.id FROM entries e WHERE e.deleted_at IS NOT NULL"@ =~= "SELECT e.id FROM entries e WHERE "@
            + "e.deleted_at IS NOT NULL"@);
        assert("SELECT e.id FROM entries e WHERE e.deleted_at IS NULL"@ =~= "SELECT e.id FROM entries e WHERE "@
            + "e.deleted_at IS NULL"@);
    }
    if tag_id.is_some() {
        push_scope(&mut q, " AND e.id IN (SELECT entry_id FROM entry_tags WHERE tag_id = ", tag_id);
    } else if collection_id.is_some() {
        push_scope(
            &mut q,
            " AND e.id IN (SELECT entry_id FROM entry_collections WHERE collection_id = ",
            collection_id,
        );
    } else {
        let starred = match view {
            Some(v) => is_lit(&to_chars(v), "starred"),
            None => false,
        };
        let unfiled = match view {
            Some(v) => is_lit(&to_chars(v), "unfiled"),
            None => false,
        };
        if starred {
            q.push(" AND e.starred = 1");
        } else if unfiled {
            q.push(" AND NOT EXISTS (SELECT 1 FROM entry_collections ec WHERE ec.entry_id = e.id)");
        }
    }
    push_filter(&mut q, filter);
    if trash {
        q.push(" ORDER BY e.deleted_at DESC");
    } else {
        q.push(" ORDER BY e.created_at DESC");
    }
    q.finish()
}

/// `base` restricted to the trash or to live entries (entries aliased `e`).
pub open spec fn then_view(base: Frag, view: Option<Seq<char>>) -> Frag {
    then_lit(
        base,
        if is_trash(view) {
            " AND e.deleted_at IS NOT NULL"@
        } else {
            " AND e.deleted_at IS NULL"@
        },
    )
}

/// Restricts the statement to the trash or to live entries.
fn push_view_scope(q: &mut QueryText, view: Option<&str>)
    ensures
        final(q).frag() == then_view(old(q).frag(), view_text(view)),
{
    if is_trash_view(view) {
        q.push(" AND e.deleted_at IS NOT NULL");
    } else {
        q.push(" AND e.deleted_at IS NULL");
    }
}

/// `base` narrowed to a collection and a tag when given, then to the filter.
pub open spec fn then_scopes(
    base: Frag,
    collection_id: Option<i64>,
    tag_id: Option<i64>,
    f: EntryFilter,
) -> Frag {
    cat(
        then_scope(
            then_scope(
                base,
                " AND e.id IN (SELECT entry_id FROM entry_collections WHERE collection_id = "@,
                collection_id,
            ),
            " AND e.id IN (SELECT entry_id FROM entry_tags WHERE tag_id = "@,
            tag_id,
        ),
        filter_frag(f),
    )
}

fn push_scopes(
    q: &mut QueryText,
    collection_id: Option<i64>,
    tag_id: Option<i64>,
    filter: &EntryFilter,
)
    ensures
        final(q).frag() == then_scopes(old(q).frag(), collection_id, tag_id, *filter),
{
    push_scope(
        q,
        " AND e.id IN (SELECT entry_id FROM entry_collections WHERE collection_id = ",
        collection_id,
    );
    push_scope(q, " AND e.id IN (SELECT entry_id FROM entry_tags WHERE tag_id = ", tag_id);
    push_filter(q, filter);
}

/// The full-text search of entries (`entries_fts`, trigram): the words as quoted
/// phrases, best match first.
pub open spec fn entry_fts_frag(
    tokens: Seq<Seq<char>>,
    collection_id: Option<i64>,
    tag_id: Option<i64>,
    view: Option<Seq<char>>,
    f: EntryFilter,
) -> Frag {
    then_lit(
        then_scopes(
            then_view(
                cat(
                    lit(
                        "SELECT e.id FROM entries e JOIN entries_fts f ON f.rowid = e.id WHERE entries_fts MATCH "@,
                    ),
                    bind(ArgView::Text(fts_match_spec(tokens))),
                ),
                view,
            ),
            collection_id,
            tag_id,
            f,
        ),
        " ORDER BY bm25(entries_fts)"@,
    )
}

/// The five columns a short word is looked for in, for one word's pattern.
pub open spec fn like_token_frag(base: Frag, p: Seq<char>) -> Frag {
    let a = ArgView::Text(p);
    then_lit(
        cat(
            then_lit(
                cat(
                    then_lit(
                        cat(
                            then_lit(
                                cat(
                                    then_lit(
                                        cat(then_lit(base, " AND (f.title LIKE "@), bind(a)),
                                        " ESCAPE '\\'"@,
                                    )
                                        .text_then(" OR f.authors_text LIKE "@),
                                    bind(a),
                                ),
                                " ESCAPE '\\'"@,
                            ).text_then(" OR f.tags_text LIKE "@),
                            bind(a),
                        ),
                        " ESCAPE '\\'"@,
                    ).text_then(" OR f.abstract_text LIKE "@),
                    bind(a),
                ),
                " ESCAPE '\\'"@,
            ).text_then(" OR f.identifiers LIKE "@),
            bind(a),
        ),
        " ESCAPE '\\')"@,
    )
}

impl Frag {
    /// This piece followed by text `t`.
    pub open spec fn text_then(self, t: Seq<char>) -> Frag {
        then_lit(self, t)
    }
}

/// The per-word clauses of the short-word search, for the first `m` words.
pub open spec fn like_tokens_frag(base: Frag, tokens: Seq<Seq<char>>, m: int) -> Frag
    decreases m,
{
    if m <= 0 {
        base
    } else {
        like_token_frag(
            like_tokens_frag(base, tokens, m - 1),
            seq!['%'] + like_escape(tokens[m - 1]) + seq!['%'],
        )
    }
}

/// The search of entries when a word is shorter than three chars (the trigram
/// index cannot match it): each word, as a `LIKE` pattern, must occur in one of
/// five columns; newest first.
pub open spec fn entry_like_frag(
    tokens: Seq<Seq<char>>,
    collection_id: Option<i64>,
    tag_id: Option<i64>,
    view: Option<Seq<char>>,
    f: EntryFilter,
) -> Frag {
    then_lit(
        then_scopes(
            like_tokens_frag(
                then_view(
                    lit("SELECT e.id FROM entries e JOIN entries_fts f ON f.rowid = e.id WHERE 1 = 1"@),
                    view,
                ),
                tokens,
                tokens.len() as int,
            ),
            collection_id,
            tag_id,
            f,
        ),
        " ORDER BY e.created_at DESC"@,
    )
}

/// Some word is shorter than three chars.
pub open spec fn has_short_word(tokens: Seq<Seq<char>>) -> bool {
    exists|i: int| 0 <= i < tokens.len() && #[trigger] tokens[i].len() < 3
}

/// Whether some word is shorter than three chars.
pub fn any_short_word(tokens: &Vec<String>) -> (r: bool)
    ensures
        r == has_short_word(strings_view(tokens@)),
{
    let ghost tv = strings_view(tokens@);
    let mut i: usize = 0;
    while i < tokens.len()
        invariant
            i <= tokens.len(),
            tv == strings_view(tokens@),
            forall|k: int| 0 <= k < i ==> (#[trigger] tv[k]).len() >= 3,
        decreases tokens.len() - i,
    {
        if char_count(tokens[i].as_str()) < 3 {
            assert(tv[i as int].len() < 3);
            return true;
        }
        i = i + 1;
    }
    false
}

/// The statement of the entry search for `query`: with no word, the entry list
/// for the selection; with a word shorter than three chars, the `LIKE` search;
/// otherwise the trigram full-text search.
pub open spec fn entry_search_frag(
    query: Seq<char>,
    collection_id: Option<i64>,
    tag_id: Option<i64>,
    view: Option<Seq<char>>,
    f: EntryFilter,
) -> Frag {
    let tokens = words(query);
    if tokens.len() == 0 {
        entry_list_frag(collection_id, tag_id, view, f)
    } else if has_short_word(tokens) {
        entry_like_frag(tokens, collection_id, tag_id, view, f)
    } else {
        entry_fts_frag(tokens, collection_id, tag_id, view, f)
    }
}

/// The statement that finds the ids of the entries matching `query` within the
/// selection and filter (see [`entry_search_frag`]).
pub fn entry_search_query(
    query: &str,
    collection_id: Option<i64>,
    tag_id: Option<i64>,
    view: Option<&str>,
    filter: &EntryFilter,
) -> (r: SqlQuery)
    ensures
        r.sql@ == entry_search_frag(query@, collection_id, tag_id, view_text(view), *filter).text,
        args_view(r.args@) == entry_search_frag(
            query@,
            collection_id,
            tag_id,
            view_text(view),
            *filter,
        ).args,
{
    let tokens = split_whitespace(query);
    if tokens.len() == 0 {
        return entry_list_query(collection_id, tag_id, view, filter);
    }
    if any_short_word(&tokens) {
        let mut q = QueryText::start(
            "SELECT e.id FROM entries e JOIN entries_fts f ON f.rowid = e.id WHERE 1 = 1",
        );
        push_view_scope(&mut q, view);
        let ghost base = q.frag();
        let ghost tv = strings_view(tokens@);
        let mut i: usize = 0;
        while i < tokens.len()
            invariant
                i <= tokens.len(),
                tv == strings_view(tokens@),
                q.frag() == like_tokens_frag(base, tv, i as int),
            decreases tokens.len() - i,
        {
            let pattern = like_pattern(tokens[i].as_str());
            q.push(" AND (f.title LIKE ");
            q.push_bind(SqlArg::Text(pattern.clone()));
            q.push(" ESCAPE '\\'");
            q.push(" OR f.authors_text LIKE ");
            q.push_bind(SqlArg::Text(pattern.clone()));
            q.push(" ESCAPE '\\'");
            q.push(" OR f.tags_text LIKE ");
            q.push_bind(SqlArg::Text(pattern.clone()));
            q.push(" ESCAPE '\\'");
            q.push(" OR f.abstract_text LIKE ");
            q.push_bind(SqlArg::Text(pattern.clone()));
            q.push(" ESCAPE '\\'");
            q.push(" OR f.identifiers LIKE ");
            q.push_bind(SqlArg::Text(pattern));
            q.push(" ESCAPE '\\')");
            i = i + 1;
        }
        push_scopes(&mut q, collection_id, tag_id, filter);
        q.push(" ORDER BY e.created_at DESC");
        q.finish()
    } else {
        let mut q = QueryText::start(
            "SELECT e.id FROM entries e JOIN entries_fts f ON f.rowid = e.id WHERE entries_fts MATCH ",
        );
        q.push_bind(SqlArg::Text(build_fts_match_expr(&tokens)));
        push_view_scope(&mut q, view);
        push_scopes(&mut q, collection_id, tag_id, filter);
        q.push(" ORDER BY bm25(entries_fts)");
        q.finish()
    }
}


} // verus!
