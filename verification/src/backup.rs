//! Backup rules: which files in the backups directory are backups and which are
//! work files left behind by an interrupted run, the names a run writes under,
//! when an automatic backup is due, which old generations are pruned, and the
//! record of entries that vanished while the archive was being written.

use vstd::prelude::*;

use crate::models::strings_view;
use crate::text::{
    ends_with_lit, from_chars, has_prefix, has_suffix, contains_seq, contains_lit,
    nat_digits, push_all, push_lit, starts_with_lit, to_chars, usize_text,
};

verus! {

/// Generations kept by default, shared by automatic and manual runs.
pub const DEFAULT_KEEP: usize = 14;

/// Least time between automatic backups, in seconds (one day).
pub const AUTO_INTERVAL_SECS: i64 = 86400;

/// Age, in seconds, after which a work file is taken for the remains of an
/// interrupted run (one hour).
pub const WORK_FILE_STALE_SECS: u64 = 3600;

/// How many skipped paths the record lists; the count goes on past it.
pub const SKIPPED_SAMPLE_MAX: usize = 200;

// ── file names ────────────────────────────────────────────────────────────

/// A backup: `lumencite-*.zip`, or an older DB-only `lumencite-*.db`.
pub open spec fn is_backup_name(s: Seq<char>) -> bool {
    has_prefix(s, "lumencite-"@) && (has_suffix(s, ".zip"@) || has_suffix(s, ".db"@))
}

/// A work file an interrupted run leaves behind: the intermediate database of
/// `VACUUM INTO` and its journal, an archive still being written, or the journal
/// of an old DB-only backup.
pub open spec fn is_leftover_name(s: Seq<char>) -> bool {
    (has_prefix(s, ".vacuum-"@) && contains_seq(s, ".db.tmp"@)) || (has_prefix(s, "lumencite-"@)
        && has_suffix(s, ".zip.partial"@)) || (has_prefix(s, "lumencite-"@) && has_suffix(
        s,
        ".db-journal"@,
    ))
}

/// Whether a file of the backups directory is a backup (listed and pruned).
pub fn is_backup_file(name: &str) -> (r: bool)
    ensures
        r == is_backup_name(name@),
{
    let s = to_chars(name);
    starts_with_lit(&s, "lumencite-") && (ends_with_lit(&s, ".zip") || ends_with_lit(&s, ".db"))
}

/// Whether a file of the backups directory is a leftover work file.
pub fn is_leftover_work_file(name: &str) -> (r: bool)
    ensures
        r == is_leftover_name(name@),
{
    let s = to_chars(name);
    (starts_with_lit(&s, ".vacuum-") && contains_lit(&s, ".db.tmp")) || (starts_with_lit(
        &s,
        "lumencite-",
    ) && ends_with_lit(&s, ".zip.partial")) || (starts_with_lit(&s, "lumencite-")
        && ends_with_lit(&s, ".db-journal"))
}

proof fn lemma_last_of_suffix(s: Seq<char>, p: Seq<char>)
    requires
        has_suffix(s, p),
        p.len() > 0,
    ensures
        s[s.len() - 1] == p[p.len() - 1],
{
    assert(s.subrange(s.len() - p.len(), s.len() as int)[p.len() - 1] == s[s.len() - 1]);
}

proof fn lemma_first_of_prefix(s: Seq<char>, p: Seq<char>)
    requires
        has_prefix(s, p),
        p.len() > 0,
    ensures
        s[0] == p[0],
{
    assert(s.subrange(0, p.len() as int)[0] == s[0]);
}

/// A leftover work file is never taken for a backup, so an unfinished archive is
/// never listed or counted as a generation.
pub proof fn lemma_leftover_is_not_backup(s: Seq<char>)
    ensures
        is_leftover_name(s) ==> !is_backup_name(s),
{
    reveal_strlit("lumencite-");
    reveal_strlit(".vacuum-");
    reveal_strlit(".zip");
    reveal_strlit(".db");
    reveal_strlit(".zip.partial");
    reveal_strlit(".db-journal");
    if is_leftover_name(s) && is_backup_name(s) {
        lemma_first_of_prefix(s, "lumencite-"@);
        if has_prefix(s, ".vacuum-"@) {
            lemma_first_of_prefix(s, ".vacuum-"@);
        } else {
            if has_suffix(s, ".zip.partial"@) {
                lemma_last_of_suffix(s, ".zip.partial"@);
            } else {
                lemma_last_of_suffix(s, ".db-journal"@);
            }
            if has_suffix(s, ".zip"@) {
                lemma_last_of_suffix(s, ".zip"@);
            } else {
                lemma_last_of_suffix(s, ".db"@);
            }
        }
    }
}

/// The stem a run names its files by: `lumencite-<timestamp>`, with `-<n>` added
/// when an earlier run of the same second took the plain name.
pub open spec fn stem_spec(timestamp: Seq<char>, n: nat) -> Seq<char> {
    if n == 0 {
        "lumencite-"@ + timestamp
    } else {
        "lumencite-"@ + timestamp + seq!['-'] + nat_digits(n)
    }
}

/// The stem of a run for `timestamp` after `n` names were found taken.
pub fn backup_stem(timestamp: &str, n: usize) -> (r: String)
    ensures
        r@ == stem_spec(timestamp@, n as nat),
{
    let mut v: Vec<char> = Vec::new();
    push_lit(&mut v, "lumencite-");
    push_all(&mut v, &to_chars(timestamp));
    if n > 0 {
        v.push('-');
        push_all(&mut v, &usize_text(n));
    }
    from_chars(&v)
}

/// The finished archive of a run.
pub open spec fn archive_name(stem: Seq<char>) -> Seq<char> {
    stem + ".zip"@
}

/// The archive of a run while it is being written.
pub open spec fn partial_name(stem: Seq<char>) -> Seq<char> {
    stem + ".zip.partial"@
}

/// The intermediate database `VACUUM INTO` writes.
pub open spec fn vacuum_name(stem: Seq<char>) -> Seq<char> {
    ".vacuum-"@ + stem + ".db.tmp"@
}

/// The names of the files of a run with stem `stem`: the finished archive, the
/// archive while written, and the intermediate database.
pub fn work_names(stem: &str) -> (r: (String, String, String))
    ensures
        r.0@ == archive_name(stem@),
        r.1@ == partial_name(stem@),
        r.2@ == vacuum_name(stem@),
{
    let s = to_chars(stem);
    let mut a = s.clone();
    push_lit(&mut a, ".zip");
    let mut p = s.clone();
    push_lit(&mut p, ".zip.partial");
    let mut t: Vec<char> = Vec::new();
    push_lit(&mut t, ".vacuum-");
    push_all(&mut t, &s);
    push_lit(&mut t, ".db.tmp");
    (from_chars(&a), from_chars(&p), from_chars(&t))
}

/// A run writes only under names that are not backups until it is finished: the
/// archive being written and the intermediate database are work files that a
/// later sweep collects, and the finished archive is a backup and no work file.
pub proof fn lemma_run_names(timestamp: Seq<char>, n: nat)
    ensures
        is_backup_name(archive_name(stem_spec(timestamp, n))),
        !is_leftover_name(archive_name(stem_spec(timestamp, n))),
        is_leftover_name(partial_name(stem_spec(timestamp, n))),
        !is_backup_name(partial_name(stem_spec(timestamp, n))),
        is_leftover_name(vacuum_name(stem_spec(timestamp, n))),
        !is_backup_name(vacuum_name(stem_spec(timestamp, n))),
{
    reveal_strlit("lumencite-");
    reveal_strlit(".vacuum-");
    reveal_strlit(".zip");
    reveal_strlit(".db");
    reveal_strlit(".zip.partial");
    reveal_strlit(".db-journal");
    reveal_strlit(".db.tmp");
    let stem = stem_spec(timestamp, n);
    assert(has_prefix(stem, "lumencite-"@)) by {
        if n == 0 {
            assert(stem.subrange(0, 10) =~= "lumencite-"@);
        } else {
            assert(stem.subrange(0, 10) =~= "lumencite-"@);
        }
    }
    let a = archive_name(stem);
    assert(a.subrange(0, 10) =~= stem.subrange(0, 10));
    assert(a.subrange(a.len() - 4, a.len() as int) =~= ".zip"@);
    assert(has_prefix(a, "lumencite-"@));
    assert(has_suffix(a, ".zip"@));
    if has_suffix(a, ".zip.partial"@) {
        lemma_last_of_suffix(a, ".zip.partial"@);
    }
    if has_suffix(a, ".db-journal"@) {
        lemma_last_of_suffix(a, ".db-journal"@);
    }
    if has_prefix(a, ".vacuum-"@) {
        lemma_first_of_prefix(a, ".vacuum-"@);
    }
    let p = partial_name(stem);
    assert(p.subrange(0, 10) =~= stem.subrange(0, 10));
    assert(p.subrange(p.len() - 12, p.len() as int) =~= ".zip.partial"@);
    assert(is_leftover_name(p));
    lemma_leftover_is_not_backup(p);
    let v = vacuum_name(stem);
    assert(v.subrange(0, 8) =~= ".vacuum-"@);
    assert(v.subrange(v.len() - 7, v.len() as int) =~= ".db.tmp"@);
    assert(occurs_at_tail(v));
    lemma_leftover_is_not_backup(v);
}

spec fn occurs_at_tail(v: Seq<char>) -> bool {
    crate::text::occurs_at(v, ".db.tmp"@, v.len() - 7)
}

// ── SQL for the intermediate database ─────────────────────────────────────

/// `s` with each single quote doubled (an SQL string literal's body).
pub open spec fn quote_doubled(s: Seq<char>) -> Seq<char>
    decreases s.len(),
{
    if s.len() == 0 {
        Seq::empty()
    } else {
        let rest = quote_doubled(s.drop_last());
        if s.last() == '\'' {
            rest + seq!['\'', '\'']
        } else {
            rest.push(s.last())
        }
    }
}

/// `VACUUM INTO '<path>'`, the path quoted as an SQL string literal.
pub fn vacuum_into_sql(path: &str) -> (r: String)
    ensures
        r@ == "VACUUM INTO '"@ + quote_doubled(path@) + "'"@,
{
    let s = to_chars(path);
    let mut body: Vec<char> = Vec::new();
    let mut i: usize = 0;
    while i < s.len()
        invariant
            i <= s.len(),
            body@ == quote_doubled(s@.subrange(0, i as int)),
        decreases s.len() - i,
    {
        proof {
            assert(s@.subrange(0, i + 1).drop_last() =~= s@.subrange(0, i as int));
        }
        if s[i] == '\'' {
            body.push('\'');
            body.push('\'');
        } else {
            body.push(s[i]);
        }
        i = i + 1;
    }
    proof {
        assert(s@.subrange(0, s.len() as int) =~= s@);
    }
    let mut v: Vec<char> = Vec::new();
    push_lit(&mut v, "VACUUM INTO '");
    push_all(&mut v, &body);
    push_lit(&mut v, "'");
    from_chars(&v)
}

// ── when to run, what to sweep, what to prune ─────────────────────────────

/// What `chrono::DateTime::parse_from_rfc3339` reads from a text: the instant's
/// whole seconds since the Unix epoch and the nanoseconds past them, or `None`
/// when the text is not an RFC 3339 date and time.
pub uninterp spec fn spec_rfc3339_instant(raw: Seq<char>) -> Option<(i64, u32)>;

/// `chrono::DateTime::parse_from_rfc3339`, read through `timestamp` and
/// `timestamp_subsec_nanos`. The result depends on the text alone (the offset
/// in the text fixes the instant).
#[verifier::external_body]
fn rfc3339_instant(raw: &str) -> (r: Option<(i64, u32)>)
    ensures
        r == spec_rfc3339_instant(raw@),
{
    chrono::DateTime::parse_from_rfc3339(raw).ok().map(|d| (d.timestamp(), d.timestamp_subsec_nanos()))
}

/// Whole seconds from the instant `last` to the instant `now` (each as seconds
/// since the epoch and nanoseconds past them), rounded toward zero as
/// `TimeDelta::num_seconds` rounds.
pub open spec fn whole_secs_between(last: (i64, u32), now: (i64, u32)) -> int {
    let d = (now.0 - last.0) * 1_000_000_000 + (now.1 - last.1);
    if d >= 0 {
        d / 1_000_000_000
    } else {
        -((-d) / 1_000_000_000)
    }
}

/// Whether an automatic backup is due at the instant `now` (seconds since the
/// epoch and nanoseconds past them), given the recorded time of the last
/// success: due when nothing is recorded or the record is not an RFC 3339 time,
/// when at least `min_interval_secs` whole seconds have passed since it, and when
/// it lies in the future (a clock that was set back would otherwise stop
/// backups).
pub fn backup_due_from_record(record: &Option<String>, now_secs: i64, now_nanos: u32, min_interval_secs: i64) -> (r: bool)
    ensures
        r == match record {
            None => true,
            Some(s) => match spec_rfc3339_instant(s@) {
                None => true,
                Some(last) => {
                    let e = whole_secs_between(last, (now_secs, now_nanos));
                    e >= min_interval_secs || e < 0
                },
            },
        },
{
    match record {
        None => true,
        Some(s) => match rfc3339_instant(s.as_str()) {
            None => true,
            Some((ls, ln)) => {
                let d: i128 = (now_secs as i128 - ls as i128) * 1_000_000_000i128 + (now_nanos as i128 - ln as i128);
                let e: i128 = if d >= 0 {
                    d / 1_000_000_000i128
                } else {
                    -((-d) / 1_000_000_000i128)
                };
                e >= min_interval_secs as i128 || e < 0
            },
        },
    }
}


/// Whether an automatic backup is due, given the seconds since the last recorded
/// success (`None` when nothing is recorded or the record cannot be read). It is
/// due when nothing is recorded, when the interval has passed, and when the record
/// lies in the future (a clock that was set back would otherwise stop backups).
pub fn is_backup_due(elapsed_secs: Option<i64>, min_interval_secs: i64) -> (r: bool)
    ensures
        r == match elapsed_secs {
            None => true,
            Some(e) => e >= min_interval_secs || e < 0,
        },
{
    match elapsed_secs {
        None => true,
        Some(e) => e >= min_interval_secs || e < 0,
    }
}

/// Whether the sweep removes a file of the backups directory: a leftover work
/// file whose age (seconds since it was last modified, `None` when unknown) is at
/// least [`WORK_FILE_STALE_SECS`], so that a run still writing it is left alone.
pub fn is_stale_work_file(name: &str, age_secs: Option<u64>) -> (r: bool)
    ensures
        r == (is_leftover_name(name@) && match age_secs {
            Some(a) => a >= WORK_FILE_STALE_SECS,
            None => false,
        }),
{
    if !is_leftover_work_file(name) {
        return false;
    }
    match age_secs {
        Some(a) => a >= WORK_FILE_STALE_SECS,
        None => false,
    }
}

/// Number of backups among the first `m` files that come before file `i` when the
/// backups are ordered newest first (ties keep the listing order).
pub open spec fn ahead_upto(files: Seq<(String, i128)>, i: int, m: int) -> nat
    decreases m,
{
    if m <= 0 {
        0
    } else {
        let j = m - 1;
        ahead_upto(files, i, j) + if is_backup_name(files[j].0@) && (files[j].1 > files[i].1 || (
        files[j].1 == files[i].1 && j < i)) {
            1nat
        } else {
            0nat
        }
    }
}

/// Position of backup `i` when the backups are ordered newest first.
pub open spec fn rank(files: Seq<(String, i128)>, i: int) -> nat {
    ahead_upto(files, i, files.len() as int)
}

/// Names, in listing order, of the backups among the first `m` files that fall
/// outside the newest `keep`.
pub open spec fn pruned_upto(files: Seq<(String, i128)>, keep: nat, m: int) -> Seq<Seq<char>>
    decreases m,
{
    if m <= 0 {
        Seq::empty()
    } else {
        let before = pruned_upto(files, keep, m - 1);
        if is_backup_name(files[m - 1].0@) && rank(files, m - 1) >= keep {
            before.push(files[m - 1].0@)
        } else {
            before
        }
    }
}

proof fn lemma_ahead_bound(files: Seq<(String, i128)>, i: int, m: int)
    requires
        0 <= m <= files.len(),
    ensures
        ahead_upto(files, i, m) <= m,
    decreases m,
{
    if m > 0 {
        lemma_ahead_bound(files, i, m - 1);
    }
}

/// The backups to delete so that only the newest `keep` remain: every backup
/// (by name) of the listing, each with its modification time, ordered newest
/// first with ties in listing order, past the first `keep`. The names come back in
/// listing order; other files are never chosen.
pub fn backups_to_prune(files: &Vec<(String, i128)>, keep: usize) -> (r: Vec<String>)
    ensures
        strings_view(r@) == pruned_upto(files@, keep as nat, files.len() as int),
{
    let n = files.len();
    let mut r: Vec<String> = Vec::new();
    let mut i: usize = 0;
    while i < n
        invariant
            n == files.len(),
            i <= n,
            strings_view(r@) == pruned_upto(files@, keep as nat, i as int),
        decreases n - i,
    {
        if is_backup_file(files[i].0.as_str()) {
            let t = files[i].1;
            let mut ahead: usize = 0;
            let mut j: usize = 0;
            while j < n
                invariant
                    n == files.len(),
                    i < n,
                    j <= n,
                    t == files@[i as int].1,
                    ahead == ahead_upto(files@, i as int, j as int),
                decreases n - j,
            {
                proof {
                    lemma_ahead_bound(files@, i as int, j as int);
                }
                let tj = files[j].1;
                if is_backup_file(files[j].0.as_str()) && (tj > t || (tj == t && j < i)) {
                    ahead = ahead + 1;
                }
                j = j + 1;
            }
            if ahead >= keep {
                let ghost before = r@;
                r.push(files[i].0.clone());
                proof {
                    assert(strings_view(r@) =~= strings_view(before).push(files@[i as int].0@));
                }
            }
        }
        i = i + 1;
    }
    r
}


/// One backup as listed: where it is, its file name, when it was last written
/// (`YYYY-MM-DD HH:MM:SS`, local time) and its size.
#[derive(Debug)]
pub struct BackupInfo {
    pub path: String,
    pub file_name: String,
    pub created_at: String,
    pub size_bytes: u64,
}

// ── entries that could not be archived ────────────────────────────────────

/// What the archive walk learns of a failed step: whether the entry was not found
/// (it vanished, or is neither a file nor a directory), and the error's text.
#[derive(Debug)]
pub struct IoFailure {
    pub not_found: bool,
    pub message: String,
}

/// The record of entries left out of an archive: how many, and the first
/// [`SKIPPED_SAMPLE_MAX`] of them (`<path>\t(<error>)`).
#[derive(Debug)]
pub struct SkippedEntries {
    pub count: usize,
    pub names: Vec<String>,
}

/// The line the record keeps for a skipped path.
pub open spec fn note_line(path: Seq<char>, message: Seq<char>) -> Seq<char> {
    path + seq!['\t', '('] + message + seq![')']
}

/// A path whose disappearance is no loss: a work file (`*.tmp`) that is renamed
/// away as a matter of course.
pub open spec fn is_transient_path(path: Seq<char>) -> bool {
    has_suffix(path, ".tmp"@)
}

/// Whether a vanished path is a work file that is skipped without being recorded.
pub fn is_transient_work_file(zip_path: &str) -> (r: bool)
    ensures
        r == is_transient_path(zip_path@),
{
    ends_with_lit(&to_chars(zip_path), ".tmp")
}

/// The lines of the record, one per listed path.
pub open spec fn report_lines(names: Seq<Seq<char>>) -> Seq<char>
    decreases names.len(),
{
    if names.len() == 0 {
        Seq::empty()
    } else {
        report_lines(names.drop_last()) + names.last() + seq!['\n']
    }
}

/// The text of the record that goes into the archive: the total, each listed
/// path, and how many more were left off the list.
pub open spec fn report_text(count: nat, names: Seq<Seq<char>>) -> Seq<char> {
    "LumenCite backup: "@ + nat_digits(count)
        + " entry/entries could not be archived (they were removed or became unreadable while the archive was being written) and are NOT included in this backup.\nこのバックアップには、書き出し中に読めなくなった "@
        + nat_digits(count) + " 件のエントリが含まれていません。\n\n"@ + report_lines(names) + if count
        > names.len() {
        "... and "@ + nat_digits((count - names.len()) as nat) + " more\n"@
    } else {
        Seq::empty()
    }
}

impl SkippedEntries {
    /// The list holds the first paths noted, up to [`SKIPPED_SAMPLE_MAX`].
    pub open spec fn wf(&self) -> bool {
        &&& self.names.len() <= SKIPPED_SAMPLE_MAX
        &&& self.names.len() <= self.count
        &&& (self.count <= SKIPPED_SAMPLE_MAX ==> self.names.len() == self.count)
        &&& (self.count > SKIPPED_SAMPLE_MAX ==> self.names.len() == SKIPPED_SAMPLE_MAX)
    }

    /// Nothing skipped.
    pub fn new() -> (r: SkippedEntries)
        ensures
            r.wf(),
            r.count == 0,
            r.names@.len() == 0,
    {
        SkippedEntries { count: 0, names: Vec::new() }
    }

    /// Records one path that could not be archived: the count always goes up, the
    /// line is listed while the list is shorter than [`SKIPPED_SAMPLE_MAX`].
    pub fn note(&mut self, zip_path: &str, err: &IoFailure)
        requires
            old(self).wf(),
            old(self).count < usize::MAX,
        ensures
            final(self).wf(),
            final(self).count == old(self).count + 1,
            strings_view(final(self).names@) == if old(self).names.len() < SKIPPED_SAMPLE_MAX {
                strings_view(old(self).names@).push(note_line(zip_path@, err.message@))
            } else {
                strings_view(old(self).names@)
            },
    {
        self.count = self.count + 1;
        if self.names.len() < SKIPPED_SAMPLE_MAX {
            let mut line = to_chars(zip_path);
            line.push('\t');
            line.push('(');
            push_all(&mut line, &to_chars(err.message.as_str()));
            line.push(')');
            assert(line@ =~= note_line(zip_path@, err.message@));
            let ghost before = self.names@;
            self.names.push(from_chars(&line));
            proof {
                assert(strings_view(self.names@) =~= strings_view(before).push(
                    note_line(zip_path@, err.message@),
                ));
            }
        }
    }

    /// The text of the record placed in the archive.
    pub fn report(&self) -> (r: String)
        ensures
            r@ == report_text(self.count as nat, strings_view(self.names@)),
    {
        let mut v: Vec<char> = Vec::new();
        let digits = usize_text(self.count);
        push_lit(&mut v, "LumenCite backup: ");
        push_all(&mut v, &digits);
        push_lit(
            &mut v,
            " entry/entries could not be archived (they were removed or became unreadable while the archive was being written) and are NOT included in this backup.\nこのバックアップには、書き出し中に読めなくなった ",
        );
        push_all(&mut v, &digits);
        push_lit(&mut v, " 件のエントリが含まれていません。\n\n");
        let ghost head = v@;
        let mut i: usize = 0;
        while i < self.names.len()
            invariant
                i <= self.names.len(),
                v@ == head + report_lines(strings_view(self.names@).subrange(0, i as int)),
            decreases self.names.len() - i,
        {
            proof {
                assert(strings_view(self.names@).subrange(0, i + 1).drop_last() =~= strings_view(
                    self.names@,
                ).subrange(0, i as int));
            }
            push_all(&mut v, &to_chars(self.names[i].as_str()));
            v.push('\n');
            i = i + 1;
        }
        proof {
            assert(strings_view(self.names@).subrange(0, self.names.len() as int) =~= strings_view(
                self.names@,
            ));
        }
        if self.count > self.names.len() {
            push_lit(&mut v, "... and ");
            push_all(&mut v, &usize_text(self.count - self.names.len()));
            push_lit(&mut v, " more\n");
        }
        from_chars(&v)
    }
}

/// The one place that decides between skipping an entry and failing the backup:
/// a step that succeeded, or failed because its entry was not found, lets the walk
/// go on (the not-found path is recorded unless it is a transient work file);
/// every other failure is handed back unchanged and fails the backup.
pub fn skip_if_vanished(
    res: Result<(), IoFailure>,
    zip_path: &str,
    skipped: &mut SkippedEntries,
) -> (r: Result<(), IoFailure>)
    requires
        old(skipped).wf(),
        old(skipped).count < usize::MAX,
    ensures
        final(skipped).wf(),
        match res {
            Ok(()) => r is Ok && *final(skipped) == *old(skipped),
            Err(e) => if e.not_found {
                &&& r is Ok
                &&& if is_transient_path(zip_path@) {
                    *final(skipped) == *old(skipped)
                } else {
                    &&& final(skipped).count == old(skipped).count + 1
                    &&& strings_view(final(skipped).names@) == if old(skipped).names.len()
                        < SKIPPED_SAMPLE_MAX {
                        strings_view(old(skipped).names@).push(note_line(zip_path@, e.message@))
                    } else {
                        strings_view(old(skipped).names@)
                    }
                }
            } else {
                r == Err::<(), IoFailure>(e) && *final(skipped) == *old(skipped)
            },
        },
{
    match res {
        Ok(()) => Ok(()),
        Err(e) => {
            if e.not_found {
                if !is_transient_work_file(zip_path) {
                    skipped.note(zip_path, &e);
                }
                Ok(())
            } else {
                Err(e)
            }
        },
    }
}


// ── listing backups ───────────────────────────────────────────────────────

/// Position `x` put into the list `t` before the first position whose time text
/// sorts before `x`'s (so that among equal times the earlier stays first).
pub open spec fn insert_newest(times: Seq<Seq<char>>, t: Seq<int>, x: int) -> Seq<int>
    decreases t.len(),
{
    if t.len() == 0 {
        seq![x]
    } else if crate::order::seq_lt(times[t[0]], times[x]) {
        seq![x] + t
    } else {
        seq![t[0]] + insert_newest(times, t.drop_first(), x)
    }
}

/// The positions `0..m` ordered newest first by their time text, equal times
/// in their listed order.
pub open spec fn newest_first(times: Seq<Seq<char>>, m: int) -> Seq<int>
    decreases m,
{
    if m <= 0 {
        Seq::empty()
    } else {
        insert_newest(times, newest_first(times, m - 1), m - 1)
    }
}

proof fn lemma_insert_newest_at(times: Seq<Seq<char>>, t: Seq<int>, x: int, p: int)
    requires
        0 <= p <= t.len(),
        forall|q: int| 0 <= q < p ==> !crate::order::seq_lt(#[trigger] times[t[q]], times[x]),
        p == t.len() || crate::order::seq_lt(times[t[p]], times[x]),
    ensures
        insert_newest(times, t, x) == t.take(p) + seq![x] + t.skip(p),
    decreases t.len(),
{
    if t.len() == 0 {
        assert(t.take(p) + seq![x] + t.skip(p) =~= seq![x]);
    } else if p == 0 {
        assert(t.take(0) + seq![x] + t.skip(0) =~= seq![x] + t);
    } else {
        let r = t.drop_first();
        assert forall|q: int| 0 <= q < p - 1 implies !crate::order::seq_lt(#[trigger] times[r[q]], times[x]) by {
            assert(r[q] == t[q + 1]);
            assert(!crate::order::seq_lt(times[t[q + 1]], times[x]));
        }
        if p - 1 < r.len() {
            assert(r[p - 1] == t[p]);
        }
        assert(!crate::order::seq_lt(times[t[0]], times[x]));
        lemma_insert_newest_at(times, r, x, p - 1);
        assert(t.take(p) + seq![x] + t.skip(p) =~= seq![t[0]] + (r.take(p - 1) + seq![x] + r.skip(p - 1)));
    }
}

/// The order in which the backups list shows files whose modification times
/// read `times` (as `YYYY-MM-DD HH:MM:SS` texts): newest first, files with equal
/// times in the order they were found. The result lists positions of `times`.
pub fn order_newest_first(times: &Vec<String>) -> (r: Vec<usize>)
    ensures
        r@.map_values(|k: usize| k as int) == newest_first(strings_view(times@), times.len() as int),
{
    let ghost tv = strings_view(times@);
    let n = times.len();
    let mut chars: Vec<Vec<char>> = Vec::new();
    let mut i: usize = 0;
    while i < n
        invariant
            n == times.len(),
            tv == strings_view(times@),
            i <= n,
            chars.len() == i,
            forall|k: int| 0 <= k < i ==> (#[trigger] chars@[k])@ == tv[k],
        decreases n - i,
    {
        chars.push(to_chars(times[i].as_str()));
        i = i + 1;
    }
    let mut r: Vec<usize> = Vec::new();
    let mut i: usize = 0;
    while i < n
        invariant
            n == times.len(),
            tv == strings_view(times@),
            tv.len() == n,
            i <= n,
            chars.len() == n,
            forall|k: int| 0 <= k < n ==> (#[trigger] chars@[k])@ == tv[k],
            r@.map_values(|k: usize| k as int) == newest_first(tv, i as int),
            r.len() == i,
            forall|q: int| 0 <= q < r.len() ==> #[trigger] r@[q] < i,
        decreases n - i,
    {
        let ghost t = r@.map_values(|k: usize| k as int);
        let mut p: usize = 0;
        while p < r.len()
            invariant
                p <= r.len(),
                r.len() == i,
                i < n,
                chars.len() == n,
                forall|k: int| 0 <= k < n ==> (#[trigger] chars@[k])@ == tv[k],
                t == r@.map_values(|k: usize| k as int),
                forall|q: int| 0 <= q < r.len() ==> #[trigger] r@[q] < i,
                forall|q: int| 0 <= q < p ==> !crate::order::seq_lt(#[trigger] tv[t[q]], tv[i as int]),
            ensures
                p <= r.len(),
                forall|q: int| 0 <= q < p ==> !crate::order::seq_lt(#[trigger] tv[t[q]], tv[i as int]),
                p == r.len() || crate::order::seq_lt(tv[t[p as int]], tv[i as int]),
            decreases r.len() - p,
        {
            let j = r[p];
            if crate::order::chars_lt(&chars[j], &chars[i]) {
                break;
            }
            p = p + 1;
        }
        proof {
            lemma_insert_newest_at(tv, t, i as int, p as int);
        }
        r.insert(p, i);
        proof {
            assert(r@.map_values(|k: usize| k as int) =~= t.take(p as int) + seq![i as int] + t.skip(p as int));
            assert(newest_first(tv, i + 1) == insert_newest(tv, newest_first(tv, i as int), i as int));
        }
        i = i + 1;
    }
    r
}
} // verus!
