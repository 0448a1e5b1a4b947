//! Command-line rules: telling a command-line run from a GUI launch, reading
//! `--field key=value` options and entry ids, the arguments of the write tools the
//! commands call, interpreting a tool's reply, and the lines of the human-readable
//! output.

use vstd::prelude::*;

use crate::bibtex::{find_char, first_index_of};
use crate::models::{opt_view, strings_view};
use crate::text::{
    contains_lit, contains_seq, from_chars, i64_text, int_text, is_lit, join_chars, join_spec,
    pad_left, pad_left_chars, parse_i64, parse_i64_spec, push_all, push_lit, slice_chars, to_chars,
};

verus! {

// ── command line or GUI ───────────────────────────────────────────────────

/// A top-level flag that asks for the command-line help or version.
pub open spec fn is_help_flag(a: Seq<char>) -> bool {
    a == "--help"@ || a == "-h"@ || a == "--version"@ || a == "-V"@
}

/// The first argument makes this a command-line run: a help or version flag, or a
/// word that does not start with `-` (a subcommand, known or not). No argument,
/// or another flag (such as the `-psn_…` a GUI launch may carry), is a GUI launch.
pub open spec fn cli_invocation_spec(args: Seq<Seq<char>>) -> bool {
    args.len() >= 2 && (is_help_flag(args[1]) || !(args[1].len() > 0 && args[1][0] == '-'))
}

/// Whether the process arguments (`args[0]` the program) ask for a command-line run.
pub fn is_cli_invocation(args: &Vec<String>) -> (r: bool)
    ensures
        r == cli_invocation_spec(strings_view(args@)),
{
    if args.len() < 2 {
        return false;
    }
    let a = to_chars(args[1].as_str());
    let help = is_lit(&a, "--help") || is_lit(&a, "-h") || is_lit(&a, "--version") || is_lit(
        &a,
        "-V",
    );
    if help {
        return true;
    }
    !(a.len() > 0 && a[0] == '-')
}

// ── `--field key=value` ───────────────────────────────────────────────────

/// The error for a `--field` without `=`.
pub open spec fn no_eq_error(f: Seq<char>) -> Seq<char> {
    "invalid --field '"@ + f + "' (expected key=value)"@
}

/// The error for a `--field` with an empty key.
pub open spec fn empty_key_error(f: Seq<char>) -> Seq<char> {
    "invalid --field '"@ + f + "' (empty key)"@
}

/// One `--field`: split at its first `=`; the key must not be empty.
pub open spec fn field_spec(f: Seq<char>) -> Result<(Seq<char>, Seq<char>), Seq<char>> {
    match first_index_of(f, '=') {
        None => Err(no_eq_error(f)),
        Some(k) => if k == 0 {
            Err(empty_key_error(f))
        } else {
            Ok((f.subrange(0, k), f.subrange(k + 1, f.len() as int)))
        },
    }
}

/// The first `m` `--field`s as key/value pairs, or the error of the first bad one.
pub open spec fn fields_spec(fields: Seq<Seq<char>>, m: int) -> Result<
    Seq<(Seq<char>, Seq<char>)>,
    Seq<char>,
>
    decreases m,
{
    if m <= 0 {
        Ok(Seq::empty())
    } else {
        match fields_spec(fields, m - 1) {
            Err(e) => Err(e),
            Ok(pairs) => match field_spec(fields[m - 1]) {
                Err(e) => Err(e),
                Ok(p) => Ok(pairs.push(p)),
            },
        }
    }
}

proof fn lemma_fields_err_sticky(fields: Seq<Seq<char>>, m: int, n: int)
    requires
        0 <= m <= n,
        fields_spec(fields, m) is Err,
    ensures
        fields_spec(fields, n) == fields_spec(fields, m),
    decreases n - m,
{
    if n > m {
        lemma_fields_err_sticky(fields, m, n - 1);
    }
}

/// The views of key/value pairs.
pub open spec fn kv_view(v: Seq<(String, String)>) -> Seq<(Seq<char>, Seq<char>)> {
    v.map_values(|p: (String, String)| (p.0@, p.1@))
}

/// Reads `--field key=value` options, in order (a later key replaces an earlier
/// one when they are put in a map), or the error for the first malformed one.
pub fn parse_fields(fields: &Vec<String>) -> (r: Result<Vec<(String, String)>, String>)
    ensures
        match (r, fields_spec(strings_view(fields@), fields.len() as int)) {
            (Ok(v), Ok(s)) => kv_view(v@) == s,
            (Err(e), Err(s)) => e@ == s,
            _ => false,
        },
{
    let ghost fv = strings_view(fields@);
    let mut out: Vec<(String, String)> = Vec::new();
    let mut i: usize = 0;
    proof {
        assert(kv_view(out@) =~= Seq::<(Seq<char>, Seq<char>)>::empty());
    }
    while i < fields.len()
        invariant
            i <= fields.len(),
            fv == strings_view(fields@),
            fields_spec(fv, i as int) == Ok::<Seq<(Seq<char>, Seq<char>)>, Seq<char>>(
                kv_view(out@),
            ),
        decreases fields.len() - i,
    {
        let f = to_chars(fields[i].as_str());
        match find_char(&f, '=') {
            None => {
                let mut e: Vec<char> = Vec::new();
                push_lit(&mut e, "invalid --field '");
                push_all(&mut e, &f);
                push_lit(&mut e, "' (expected key=value)");
                proof {
                    lemma_fields_err_sticky(fv, i + 1, fields.len() as int);
                }
                return Err(from_chars(&e));
            },
            Some(k) => {
                if k == 0 {
                    let mut e: Vec<char> = Vec::new();
                    push_lit(&mut e, "invalid --field '");
                    push_all(&mut e, &f);
                    push_lit(&mut e, "' (empty key)");
                    proof {
                        lemma_fields_err_sticky(fv, i + 1, fields.len() as int);
                    }
                    return Err(from_chars(&e));
                }
                let key = slice_chars(&f, 0, k);
                let value = slice_chars(&f, k + 1, f.len());
                let ghost before = out@;
                out.push((from_chars(&key), from_chars(&value)));
                proof {
                    assert(kv_view(out@) =~= kv_view(before).push((key@, value@)));
                }
            },
        }
        i = i + 1;
    }
    Ok(out)
}

// ── entry ids ─────────────────────────────────────────────────────────────

/// An entry named on the command line by a number is that id; otherwise the text
/// is a citation key to look up (`None` here).
pub fn entry_id_of(id_or_key: &str) -> (r: Option<i64>)
    ensures
        r == parse_i64_spec(id_or_key@),
{
    parse_i64(&to_chars(id_or_key))
}

/// The error when neither an id nor a citation key names an entry.
pub fn no_entry_error(id_or_key: &str) -> (r: String)
    ensures
        r@ == "no entry with id or citation key '"@ + id_or_key@ + "'"@,
{
    let mut v: Vec<char> = Vec::new();
    push_lit(&mut v, "no entry with id or citation key '");
    push_all(&mut v, &to_chars(id_or_key));
    push_lit(&mut v, "'");
    from_chars(&v)
}

// ── arguments of the write tools ──────────────────────────────────────────

/// A value of a tool argument.
#[derive(Debug)]
pub enum ArgValue {
    Text(String),
    Int(i64),
    Texts(Vec<String>),
    Fields(Vec<(String, String)>),
}

/// The mathematical value of an [`ArgValue`].
pub enum ArgValueView {
    Text(Seq<char>),
    Int(i64),
    Texts(Seq<Seq<char>>),
    Fields(Seq<(Seq<char>, Seq<char>)>),
}

/// The view of a tool argument value.
pub open spec fn arg_value_view(a: ArgValue) -> ArgValueView {
    match a {
        ArgValue::Text(s) => ArgValueView::Text(s@),
        ArgValue::Int(i) => ArgValueView::Int(i),
        ArgValue::Texts(v) => ArgValueView::Texts(strings_view(v@)),
        ArgValue::Fields(v) => ArgValueView::Fields(kv_view(v@)),
    }
}

/// The views of named tool arguments.
pub open spec fn named_view(v: Seq<(String, ArgValue)>) -> Seq<(Seq<char>, ArgValueView)> {
    v.map_values(|p: (String, ArgValue)| (p.0@, arg_value_view(p.1)))
}

/// A call of a write tool: its name and its named arguments, in order.
#[derive(Debug)]
pub struct ToolRequest {
    pub tool: String,
    pub arguments: Vec<(String, ArgValue)>,
}

/// The flags of `add` (create an entry).
#[derive(Debug)]
pub struct AddArgs {
    pub title: String,
    pub entry_type: Option<String>,
    pub year: Option<i64>,
    pub doi: Option<String>,
    pub isbn: Option<String>,
    pub arxiv: Option<String>,
    pub url: Option<String>,
    pub citation_key: Option<String>,
    pub notes: Option<String>,
    pub abstract_: Option<String>,
    pub authors: Vec<String>,
    pub fields: Vec<String>,
}

/// The flags of `update` (change an entry).
#[derive(Debug)]
pub struct UpdateArgs {
    pub id_or_key: String,
    pub title: Option<String>,
    pub entry_type: Option<String>,
    pub year: Option<i64>,
    pub doi: Option<String>,
    pub isbn: Option<String>,
    pub arxiv: Option<String>,
    pub url: Option<String>,
    pub citation_key: Option<String>,
    pub notes: Option<String>,
    pub abstract_: Option<String>,
    pub authors: Vec<String>,
    pub fields: Vec<String>,
}

/// `acc` with `key` bound to the text when it is given.
pub open spec fn then_text(
    acc: Seq<(Seq<char>, ArgValueView)>,
    key: Seq<char>,
    o: Option<Seq<char>>,
) -> Seq<(Seq<char>, ArgValueView)> {
    match o {
        Some(v) => acc.push((key, ArgValueView::Text(v))),
        None => acc,
    }
}

/// `acc` with `key` bound to the number when it is given.
pub open spec fn then_int(
    acc: Seq<(Seq<char>, ArgValueView)>,
    key: Seq<char>,
    o: Option<i64>,
) -> Seq<(Seq<char>, ArgValueView)> {
    match o {
        Some(v) => acc.push((key, ArgValueView::Int(v))),
        None => acc,
    }
}

/// `acc` with the author names and the extra fields, each only when non-empty.
pub open spec fn then_lists(
    acc: Seq<(Seq<char>, ArgValueView)>,
    authors: Seq<Seq<char>>,
    extra: Seq<(Seq<char>, Seq<char>)>,
) -> Seq<(Seq<char>, ArgValueView)> {
    let a = if authors.len() > 0 {
        acc.push(("author_names"@, ArgValueView::Texts(authors)))
    } else {
        acc
    };
    if extra.len() > 0 {
        a.push(("extra_fields"@, ArgValueView::Fields(extra)))
    } else {
        a
    }
}

/// The metadata arguments shared by `add` and `update`, after `acc`.
pub open spec fn meta_args(
    acc: Seq<(Seq<char>, ArgValueView)>,
    entry_type: Option<Seq<char>>,
    year: Option<i64>,
    doi: Option<Seq<char>>,
    isbn: Option<Seq<char>>,
    arxiv: Option<Seq<char>>,
    url: Option<Seq<char>>,
    citation_key: Option<Seq<char>>,
    notes: Option<Seq<char>>,
    abstract_: Option<Seq<char>>,
) -> Seq<(Seq<char>, ArgValueView)> {
    then_text(
        then_text(
            then_text(
                then_text(
                    then_text(
                        then_text(
                            then_text(
                                then_int(then_text(acc, "entry_type"@, entry_type), "year"@, year),
                                "doi"@,
                                doi,
                            ),
                            "isbn"@,
                            isbn,
                        ),
                        "arxiv_id"@,
                        arxiv,
                    ),
                    "url"@,
                    url,
                ),
                "citation_key"@,
                citation_key,
            ),
            "notes"@,
            notes,
        ),
        "abstract"@,
        abstract_,
    )
}

fn push_text(acc: &mut Vec<(String, ArgValue)>, key: &str, o: &Option<String>)
    ensures
        named_view(final(acc)@) == then_text(named_view(old(acc)@), key@, opt_view(*o)),
{
    match o {
        Some(v) => {
            let ghost before = acc@;
            acc.push((String::from_str(key), ArgValue::Text(v.clone())));
            proof {
                assert(named_view(acc@) =~= named_view(before).push(
                    (key@, ArgValueView::Text(v@)),
                ));
            }
        },
        None => {},
    }
}

fn push_int(acc: &mut Vec<(String, ArgValue)>, key: &str, o: Option<i64>)
    ensures
        named_view(final(acc)@) == then_int(named_view(old(acc)@), key@, o),
{
    match o {
        Some(v) => {
            let ghost before = acc@;
            acc.push((String::from_str(key), ArgValue::Int(v)));
            proof {
                assert(named_view(acc@) =~= named_view(before).push((key@, ArgValueView::Int(v))));
            }
        },
        None => {},
    }
}

fn push_lists(acc: &mut Vec<(String, ArgValue)>, authors: &Vec<String>, extra: Vec<(String, String)>)
    ensures
        named_view(final(acc)@) == then_lists(
            named_view(old(acc)@),
            strings_view(authors@),
            kv_view(extra@),
        ),
{
    let ghost a0 = named_view(acc@);
    if authors.len() > 0 {
        let ghost before = acc@;
        acc.push((String::from_str("author_names"), ArgValue::Texts(authors.clone())));
        proof {
            assert(named_view(acc@) =~= named_view(before).push(
                ("author_names"@, ArgValueView::Texts(strings_view(authors@))),
            ));
        }
    }
    if extra.len() > 0 {
        let ghost before = acc@;
        let ghost ev = kv_view(extra@);
        acc.push((String::from_str("extra_fields"), ArgValue::Fields(extra)));
        proof {
            assert(named_view(acc@) =~= named_view(before).push(
                ("extra_fields"@, ArgValueView::Fields(ev)),
            ));
        }
    }
}

fn push_meta(
    acc: &mut Vec<(String, ArgValue)>,
    entry_type: &Option<String>,
    year: Option<i64>,
    doi: &Option<String>,
    isbn: &Option<String>,
    arxiv: &Option<String>,
    url: &Option<String>,
    citation_key: &Option<String>,
    notes: &Option<String>,
    abstract_: &Option<String>,
)
    ensures
        named_view(final(acc)@) == meta_args(
            named_view(old(acc)@),
            opt_view(*entry_type),
            year,
            opt_view(*doi),
            opt_view(*isbn),
            opt_view(*arxiv),
            opt_view(*url),
            opt_view(*citation_key),
            opt_view(*notes),
            opt_view(*abstract_),
        ),
{
    push_text(acc, "entry_type", entry_type);
    push_int(acc, "year", year);
    push_text(acc, "doi", doi);
    push_text(acc, "isbn", isbn);
    push_text(acc, "arxiv_id", arxiv);
    push_text(acc, "url", url);
    push_text(acc, "citation_key", citation_key);
    push_text(acc, "notes", notes);
    push_text(acc, "abstract", abstract_);
}

/// The `create_entry` arguments of `add`: the title, each metadata flag given,
/// the authors and the parsed fields when there are any.
pub open spec fn add_args_spec(a: AddArgs, extra: Seq<(Seq<char>, Seq<char>)>) -> Seq<
    (Seq<char>, ArgValueView),
> {
    then_lists(
        meta_args(
            seq![("title"@, ArgValueView::Text(a.title@))],
            opt_view(a.entry_type),
            a.year,
            opt_view(a.doi),
            opt_view(a.isbn),
            opt_view(a.arxiv),
            opt_view(a.url),
            opt_view(a.citation_key),
            opt_view(a.notes),
            opt_view(a.abstract_),
        ),
        strings_view(a.authors@),
        extra,
    )
}

/// The `create_entry` call for `add`, or the error of its first malformed field.
pub fn build_add_request(a: &AddArgs) -> (r: Result<ToolRequest, String>)
    ensures
        match (r, fields_spec(strings_view(a.fields@), a.fields.len() as int)) {
            (Ok(req), Ok(extra)) => req.tool@ == "create_entry"@ && named_view(req.arguments@)
                == add_args_spec(*a, extra),
            (Err(e), Err(s)) => e@ == s,
            _ => false,
        },
{
    let extra = match parse_fields(&a.fields) {
        Ok(v) => v,
        Err(e) => {
            return Err(e);
        },
    };
    let mut args: Vec<(String, ArgValue)> = Vec::new();
    args.push((String::from_str("title"), ArgValue::Text(a.title.clone())));
    proof {
        assert(named_view(args@) =~= seq![("title"@, ArgValueView::Text(a.title@))]);
    }
    push_meta(
        &mut args,
        &a.entry_type,
        a.year,
        &a.doi,
        &a.isbn,
        &a.arxiv,
        &a.url,
        &a.citation_key,
        &a.notes,
        &a.abstract_,
    );
    push_lists(&mut args, &a.authors, extra);
    Ok(ToolRequest { tool: String::from_str("create_entry"), arguments: args })
}

/// The `update_entry` arguments of `update` for entry `entry_id`: the id, each
/// flag given (an empty citation key included: it unpins the key), the authors
/// and the parsed fields when there are any.
pub open spec fn update_args_spec(
    entry_id: i64,
    a: UpdateArgs,
    extra: Seq<(Seq<char>, Seq<char>)>,
) -> Seq<(Seq<char>, ArgValueView)> {
    then_lists(
        meta_args(
            then_text(seq![("entry_id"@, ArgValueView::Int(entry_id))], "title"@, opt_view(a.title)),
            opt_view(a.entry_type),
            a.year,
            opt_view(a.doi),
            opt_view(a.isbn),
            opt_view(a.arxiv),
            opt_view(a.url),
            opt_view(a.citation_key),
            opt_view(a.notes),
            opt_view(a.abstract_),
        ),
        strings_view(a.authors@),
        extra,
    )
}

/// The `update_entry` call for `update` of entry `entry_id`, or the error of its
/// first malformed field.
pub fn build_update_request(entry_id: i64, a: &UpdateArgs) -> (r: Result<ToolRequest, String>)
    ensures
        match (r, fields_spec(strings_view(a.fields@), a.fields.len() as int)) {
            (Ok(req), Ok(extra)) => req.tool@ == "update_entry"@ && named_view(req.arguments@)
                == update_args_spec(entry_id, *a, extra),
            (Err(e), Err(s)) => e@ == s,
            _ => false,
        },
{
    let extra = match parse_fields(&a.fields) {
        Ok(v) => v,
        Err(e) => {
            return Err(e);
        },
    };
    let mut args: Vec<(String, ArgValue)> = Vec::new();
    args.push((String::from_str("entry_id"), ArgValue::Int(entry_id)));
    proof {
        assert(named_view(args@) =~= seq![("entry_id"@, ArgValueView::Int(entry_id))]);
    }
    push_text(&mut args, "title", &a.title);
    push_meta(
        &mut args,
        &a.entry_type,
        a.year,
        &a.doi,
        &a.isbn,
        &a.arxiv,
        &a.url,
        &a.citation_key,
        &a.notes,
        &a.abstract_,
    );
    push_lists(&mut args, &a.authors, extra);
    Ok(ToolRequest { tool: String::from_str("update_entry"), arguments: args })
}

// ── a tool's reply ────────────────────────────────────────────────────────

/// What a JSON-RPC reply of a tool call carries: the message of a protocol error
/// (`None` when there is none), whether a result is present, whether the result
/// is flagged as an error, and its first text content (empty when none).
#[derive(Debug)]
pub struct ToolReply {
    pub rpc_error: Option<String>,
    pub has_result: bool,
    pub is_error: bool,
    pub text: String,
}

/// What a command makes of a tool's reply: a protocol error, a missing result, a
/// result flagged as an error (with guidance when a running app refused the write
/// because writing is disabled), or the result's text.
pub open spec fn interpret_spec(reply: ToolReply, via_server: bool) -> Result<Seq<char>, Seq<char>> {
    match reply.rpc_error {
        Some(m) => Err("MCP error: "@ + m@),
        None => if !reply.has_result {
            Err("missing `result` in MCP response"@)
        } else if reply.is_error {
            if via_server && contains_seq(reply.text@, "disabled"@) {
                Err(reply.text@ + disabled_guidance())
            } else {
                Err(reply.text@)
            }
        } else {
            Ok(reply.text@)
        },
    }
}

/// The guidance appended when a running app refuses a write.
pub open spec fn disabled_guidance() -> Seq<char> {
    "\n       The LumenCite app is running but MCP write access is disabled. Enable it in the app settings, or re-run with --force to write directly (the app's open window may show stale data until refreshed)."@
}

/// The outcome of a write from the tool's reply (see [`interpret_spec`]).
pub fn interpret_tool_reply(reply: &ToolReply, via_server: bool) -> (r: Result<String, String>)
    ensures
        match (r, interpret_spec(*reply, via_server)) {
            (Ok(s), Ok(t)) => s@ == t,
            (Err(e), Err(t)) => e@ == t,
            _ => false,
        },
{
    match &reply.rpc_error {
        Some(m) => {
            let mut v: Vec<char> = Vec::new();
            push_lit(&mut v, "MCP error: ");
            push_all(&mut v, &to_chars(m.as_str()));
            return Err(from_chars(&v));
        },
        None => {},
    }
    if !reply.has_result {
        return Err(String::from_str("missing `result` in MCP response"));
    }
    if reply.is_error {
        let t = to_chars(reply.text.as_str());
        if via_server && contains_lit(&t, "disabled") {
            let mut v = t.clone();
            push_lit(
                &mut v,
                "\n       The LumenCite app is running but MCP write access is disabled. Enable it in the app settings, or re-run with --force to write directly (the app's open window may show stale data until refreshed).",
            );
            return Err(from_chars(&v));
        }
        return Err(reply.text.clone());
    }
    Ok(reply.text.clone())
}

// ── human-readable lines ──────────────────────────────────────────────────

/// A year as shown, `----` when unknown.
pub open spec fn year_text(year: Option<i64>) -> Seq<char> {
    match year {
        Some(y) => int_text(y as int),
        None => "----"@,
    }
}

fn year_chars(year: Option<i64>) -> (r: Vec<char>)
    ensures
        r@ == year_text(year),
{
    match year {
        Some(y) => i64_text(y),
        None => to_chars("----"),
    }
}

/// One search result: the id right-aligned in six columns, the year, the title.
pub open spec fn search_line_spec(id: i64, year: Option<i64>, title: Seq<char>) -> Seq<char> {
    pad_left(int_text(id as int), 6) + "  "@ + year_text(year) + "  "@ + title
}

/// The line of one search result.
pub fn search_line(id: i64, year: Option<i64>, title: &str) -> (r: String)
    ensures
        r@ == search_line_spec(id, year, title@),
{
    let mut v = pad_left_chars(&i64_text(id), 6);
    push_lit(&mut v, "  ");
    push_all(&mut v, &year_chars(year));
    push_lit(&mut v, "  ");
    push_all(&mut v, &to_chars(title));
    from_chars(&v)
}

/// One tag or collection: the id right-aligned in six columns, the name.
pub open spec fn id_name_line_spec(id: i64, name: Seq<char>) -> Seq<char> {
    pad_left(int_text(id as int), 6) + "  "@ + name
}

/// The line of one tag or collection.
pub fn id_name_line(id: i64, name: &str) -> (r: String)
    ensures
        r@ == id_name_line_spec(id, name@),
{
    let mut v = pad_left_chars(&i64_text(id), 6);
    push_lit(&mut v, "  ");
    push_all(&mut v, &to_chars(name));
    from_chars(&v)
}

/// One full-text hit: the entry id right-aligned in six columns, the page, the snippet.
pub open spec fn hit_line_spec(id: i64, page: i64, snippet: Seq<char>) -> Seq<char> {
    pad_left(int_text(id as int), 6) + "  p."@ + int_text(page as int) + "  "@ + snippet
}

/// The line of one full-text hit.
pub fn hit_line(id: i64, page: i64, snippet: &str) -> (r: String)
    ensures
        r@ == hit_line_spec(id, page, snippet@),
{
    let mut v = pad_left_chars(&i64_text(id), 6);
    push_lit(&mut v, "  p.");
    push_all(&mut v, &i64_text(page));
    push_lit(&mut v, "  ");
    push_all(&mut v, &to_chars(snippet));
    from_chars(&v)
}

/// One entry in full: `title (year)`, the authors joined by `, `, `[type] id=N`.
pub open spec fn entry_text_spec(
    title: Seq<char>,
    year: Option<i64>,
    authors: Seq<Seq<char>>,
    entry_type: Seq<char>,
    id: i64,
) -> Seq<char> {
    title + " ("@ + year_text(year) + ")\n"@ + join_spec(authors, ", "@) + "\n["@ + entry_type
        + "] id="@ + int_text(id as int)
}

/// The text of one entry for `get`.
pub fn entry_text(
    title: &str,
    year: Option<i64>,
    authors: &Vec<String>,
    entry_type: &str,
    id: i64,
) -> (r: String)
    ensures
        r@ == entry_text_spec(title@, year, strings_view(authors@), entry_type@, id),
{
    let mut parts: Vec<Vec<char>> = Vec::new();
    let mut i: usize = 0;
    while i < authors.len()
        invariant
            i <= authors.len(),
            parts@.len() == i,
            forall|k: int| 0 <= k < i ==> (#[trigger] parts@[k])@ == authors@[k]@,
        decreases authors.len() - i,
    {
        parts.push(to_chars(authors[i].as_str()));
        i = i + 1;
    }
    let sep = to_chars(", ");
    let joined = join_chars(&parts, &sep);
    let mut v = to_chars(title);
    push_lit(&mut v, " (");
    push_all(&mut v, &year_chars(year));
    push_lit(&mut v, ")\n");
    push_all(&mut v, &joined);
    push_lit(&mut v, "\n[");
    push_all(&mut v, &to_chars(entry_type));
    push_lit(&mut v, "] id=");
    push_all(&mut v, &i64_text(id));
    proof {
        assert(parts@.map_values(|p: Vec<char>| p@) =~= strings_view(authors@));
    }
    from_chars(&v)
}

} // verus!
