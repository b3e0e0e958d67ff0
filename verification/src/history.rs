//! The operation history: events, the undo/redo cursor, and how each
//! event is replayed forwards or backwards on a file's text.

use vstd::prelude::*;
use crate::error::AppError;
use crate::types::Quadrant;
use crate::storage::{
    insert_line_at, is_hash_mismatch, line_hash_matches, remove_line_if_hash, replace_line_if_hash,
    spec_insert_line,
};
use crate::assoc::{assoc_find, assoc_retain_values, assoc_set, distinct_keys, lookup, views_of};
use crate::text::{lemma_pieces_of_flatten, lemma_pieces_shape, pieces, well_shaped};
use crate::storage::{lemma_update_piece, spec_line_hash, insert_index};

verus! {

/// The task a line held, when it held one.
#[derive(Debug, PartialEq, Eq)]
pub struct TaskLineState {
    pub done: bool,
    pub text: String,
    pub quadrant: Option<Quadrant>,
}

impl Clone for TaskLineState {
    fn clone(&self) -> (r: Self)
        ensures
            r == *self,
    {
        TaskLineState { done: self.done, text: self.text.clone(), quadrant: self.quadrant }
    }
}

/// One line of a file as it stood before or after an operation.
#[derive(Debug, PartialEq, Eq)]
pub struct LineSnapshot {
    /// 1-based line number.
    pub line: usize,
    pub state: Option<TaskLineState>,
    /// The line with its line ending.
    pub raw: String,
    /// `sha256:` followed by the hex SHA-256 of `raw`.
    pub hash: String,
}

impl Clone for LineSnapshot {
    fn clone(&self) -> (r: Self)
        ensures
            r == *self,
    {
        let state = match &self.state {
            Some(s) => Some(s.clone()),
            None => None,
        };
        LineSnapshot { line: self.line, state, raw: self.raw.clone(), hash: self.hash.clone() }
    }
}

/// Line counts of an edit made outside the application.
#[derive(Debug, Clone, Copy, PartialEq, Eq)]
pub struct DiffSummary {
    pub added: usize,
    pub removed: usize,
    pub modified: usize,
}

/// What an event did.
#[derive(Debug, PartialEq, Eq)]
pub enum HistoryAction {
    Toggle { task_id: String, before: LineSnapshot, after: LineSnapshot },
    Edit { task_id: String, before: LineSnapshot, after: LineSnapshot },
    Add { after: LineSnapshot },
    Move { task_id: String, before: LineSnapshot, after: LineSnapshot },
    Delete { task_id: String, before: LineSnapshot },
    ExternalEdit { diff_summary: DiffSummary, size_bytes_delta: i64, note: String },
}

impl Clone for HistoryAction {
    fn clone(&self) -> (r: Self)
        ensures
            r == *self,
    {
        match self {
            HistoryAction::Toggle { task_id, before, after } => HistoryAction::Toggle {
                task_id: task_id.clone(),
                before: before.clone(),
                after: after.clone(),
            },
            HistoryAction::Edit { task_id, before, after } => HistoryAction::Edit {
                task_id: task_id.clone(),
                before: before.clone(),
                after: after.clone(),
            },
            HistoryAction::Add { after } => HistoryAction::Add { after: after.clone() },
            HistoryAction::Move { task_id, before, after } => HistoryAction::Move {
                task_id: task_id.clone(),
                before: before.clone(),
                after: after.clone(),
            },
            HistoryAction::Delete { task_id, before } => HistoryAction::Delete {
                task_id: task_id.clone(),
                before: before.clone(),
            },
            HistoryAction::ExternalEdit { diff_summary, size_bytes_delta, note } => HistoryAction::ExternalEdit {
                diff_summary: *diff_summary,
                size_bytes_delta: *size_bytes_delta,
                note: note.clone(),
            },
        }
    }
}

impl HistoryAction {
    /// Edits made outside the application: shown in the timeline, never undone.
    pub fn is_external(&self) -> (b: bool)
        ensures
            b == (*self is ExternalEdit),
    {
        match self {
            HistoryAction::ExternalEdit { .. } => true,
            _ => false,
        }
    }
}

/// One entry of the history.
#[derive(Debug, PartialEq, Eq)]
pub struct HistoryEvent {
    pub id: String,
    pub ts: String,
    pub source_id: String,
    pub file: String,
    pub action: HistoryAction,
}

impl Clone for HistoryEvent {
    fn clone(&self) -> (r: Self)
        ensures
            r == *self,
    {
        HistoryEvent {
            id: self.id.clone(),
            ts: self.ts.clone(),
            source_id: self.source_id.clone(),
            file: self.file.clone(),
            action: self.action.clone(),
        }
    }
}

/// A fresh ULID as text, from `ulid::Ulid::new()` (time and randomness);
/// nothing is promised of the value.
#[verifier::external_body]
fn new_event_id() -> String {
    ulid::Ulid::new().to_string()
}

/// The current UTC time formatted as RFC 3339, from
/// `time::OffsetDateTime::now_utc()` and `format(&Rfc3339)`; `None` when
/// formatting fails. Nothing is promised of the value.
#[verifier::external_body]
fn current_ts() -> Option<String> {
    time::OffsetDateTime::now_utc().format(&time::format_description::well_known::Rfc3339).ok()
}

/// The timestamp an event gets when the current time cannot be formatted.
pub open spec fn epoch_ts() -> Seq<char> {
    "1970-01-01T00:00:00Z"@
}

/// The timestamp an event gets from the formatted current time: that text,
/// or the epoch when formatting failed.
pub open spec fn spec_ts_or_epoch(formatted: Option<String>) -> Seq<char> {
    match formatted {
        Some(t) => t@,
        None => epoch_ts(),
    }
}

/// See `spec_ts_or_epoch`.
pub fn ts_or_epoch(formatted: Option<String>) -> (ts: String)
    ensures
        ts@ == spec_ts_or_epoch(formatted),
{
    match formatted {
        Some(t) => t,
        None => String::from_str("1970-01-01T00:00:00Z"),
    }
}

impl HistoryEvent {
    /// A new event with a fresh id and the current time (the epoch when the
    /// time cannot be formatted).
    pub fn new(source_id: String, file: String, action: HistoryAction) -> (e: HistoryEvent)
        ensures
            e.source_id == source_id,
            e.file == file,
            e.action == action,
    {
        HistoryEvent { id: new_event_id(), ts: ts_or_epoch(current_ts()), source_id, file, action }
    }
}


/// The text with line `n` (1-based) replaced by `raw`.
pub open spec fn spec_replace_line(c: Seq<char>, n: int, raw: Seq<char>) -> Seq<char> {
    pieces(c).update(n - 1, raw).flatten()
}

/// The text without line `n` (1-based).
pub open spec fn spec_remove_line(c: Seq<char>, n: int) -> Seq<char> {
    pieces(c).remove(n - 1).flatten()
}

/// Replaying an action on a file's text: `Ok(None)` for an outside edit,
/// `Ok(Some(text))` for the new text, `Err(line)` when the line it checks
/// no longer has the recorded hash.
pub open spec fn spec_apply_forward(a: HistoryAction, c: Seq<char>) -> Result<Option<Seq<char>>, int> {
    match a {
        HistoryAction::Toggle { before, after, .. } | HistoryAction::Edit { before, after, .. } =>
            if line_hash_matches(c, before.line as int, before.hash@) {
                Ok(Some(spec_replace_line(c, before.line as int, after.raw@)))
            } else {
                Err(before.line as int)
            },
        HistoryAction::Add { after } => Ok(Some(spec_insert_line(c, after.line as int, after.raw@))),
        HistoryAction::Move { before, after, .. } =>
            if line_hash_matches(c, before.line as int, before.hash@) {
                Ok(Some(spec_insert_line(spec_remove_line(c, before.line as int), after.line as int, after.raw@)))
            } else {
                Err(before.line as int)
            },
        HistoryAction::Delete { before, .. } =>
            if line_hash_matches(c, before.line as int, before.hash@) {
                Ok(Some(spec_remove_line(c, before.line as int)))
            } else {
                Err(before.line as int)
            },
        HistoryAction::ExternalEdit { .. } => Ok(None),
    }
}

/// Undoing an action on a file's text (same conventions as `spec_apply_forward`).
pub open spec fn spec_apply_reverse(a: HistoryAction, c: Seq<char>) -> Result<Option<Seq<char>>, int> {
    match a {
        HistoryAction::Toggle { before, after, .. } | HistoryAction::Edit { before, after, .. } =>
            if line_hash_matches(c, after.line as int, after.hash@) {
                Ok(Some(spec_replace_line(c, after.line as int, before.raw@)))
            } else {
                Err(after.line as int)
            },
        HistoryAction::Add { after } =>
            if line_hash_matches(c, after.line as int, after.hash@) {
                Ok(Some(spec_remove_line(c, after.line as int)))
            } else {
                Err(after.line as int)
            },
        HistoryAction::Move { before, after, .. } =>
            if line_hash_matches(c, after.line as int, after.hash@) {
                Ok(Some(spec_insert_line(spec_remove_line(c, after.line as int), before.line as int, before.raw@)))
            } else {
                Err(after.line as int)
            },
        HistoryAction::Delete { before, .. } => Ok(Some(spec_insert_line(c, before.line as int, before.raw@))),
        HistoryAction::ExternalEdit { .. } => Ok(None),
    }
}

/// How an `apply_*` result relates to its specification.
pub open spec fn apply_matches(res: Result<Option<String>, AppError>, expected: Result<Option<Seq<char>>, int>, event: HistoryEvent) -> bool {
    match res {
        Ok(Some(s)) => expected == Ok::<Option<Seq<char>>, int>(Some(s@)),
        Ok(None) => expected == Ok::<Option<Seq<char>>, int>(None),
        Err(e) => expected is Err && is_hash_mismatch(e, event.id@, event.file@, expected->Err_0),
    }
}

/// Redo an event on the text of its file (see `spec_apply_forward`): the new
/// text, `None` for an outside edit, or `HistoryHashMismatch` when the line
/// it checks has changed since.
pub fn apply_forward(event: &HistoryEvent, content: &str) -> (res: Result<Option<String>, AppError>)
    ensures
        apply_matches(res, spec_apply_forward(event.action, content@), *event),
{
    let id = event.id.as_str();
    let file = event.file.as_str();
    match &event.action {
        HistoryAction::Toggle { before, after, .. } | HistoryAction::Edit { before, after, .. } => {
            let s = replace_line_if_hash(content, before.line, before.hash.as_str(), after.raw.as_str(), id, file)?;
            Ok(Some(s))
        },
        HistoryAction::Add { after } => Ok(Some(insert_line_at(content, after.line, after.raw.as_str()))),
        HistoryAction::Move { before, after, .. } => {
            let s = remove_line_if_hash(content, before.line, before.hash.as_str(), id, file)?;
            Ok(Some(insert_line_at(s.as_str(), after.line, after.raw.as_str())))
        },
        HistoryAction::Delete { before, .. } => {
            let s = remove_line_if_hash(content, before.line, before.hash.as_str(), id, file)?;
            Ok(Some(s))
        },
        HistoryAction::ExternalEdit { .. } => Ok(None),
    }
}

/// Undo an event on the text of its file (see `spec_apply_reverse`).
pub fn apply_reverse(event: &HistoryEvent, content: &str) -> (res: Result<Option<String>, AppError>)
    ensures
        apply_matches(res, spec_apply_reverse(event.action, content@), *event),
{
    let id = event.id.as_str();
    let file = event.file.as_str();
    match &event.action {
        HistoryAction::Toggle { before, after, .. } | HistoryAction::Edit { before, after, .. } => {
            let s = replace_line_if_hash(content, after.line, after.hash.as_str(), before.raw.as_str(), id, file)?;
            Ok(Some(s))
        },
        HistoryAction::Add { after } => {
            let s = remove_line_if_hash(content, after.line, after.hash.as_str(), id, file)?;
            Ok(Some(s))
        },
        HistoryAction::Move { before, after, .. } => {
            let s = remove_line_if_hash(content, after.line, after.hash.as_str(), id, file)?;
            Ok(Some(insert_line_at(s.as_str(), before.line, before.raw.as_str())))
        },
        HistoryAction::Delete { before, .. } => Ok(Some(insert_line_at(content, before.line, before.raw.as_str()))),
        HistoryAction::ExternalEdit { .. } => Ok(None),
    }
}


/// A single line: non-empty, with a line feed at most at its end.
pub open spec fn line_piece(raw: Seq<char>) -> bool {
    raw.len() > 0 && forall|j: int| 0 <= j < raw.len() - 1 ==> #[trigger] raw[j] != '\n'
}

/// A snapshot whose hash is that of its line and whose line is a single line.
pub open spec fn snapshot_ok(s: LineSnapshot) -> bool {
    &&& s.line >= 1
    &&& s.hash@ == spec_line_hash(s.raw@)
    &&& line_piece(s.raw@)
}

proof fn lemma_remove_piece(ps: Seq<Seq<char>>, i: int)
    requires
        well_shaped(ps),
        0 <= i < ps.len(),
    ensures
        well_shaped(ps.remove(i)),
        pieces(ps.remove(i).flatten()) == ps.remove(i),
{
    let qs = ps.remove(i);
    assert forall|k: int| 0 <= k < qs.len() implies (#[trigger] qs[k]).len() > 0 by {
        if k < i { assert(qs[k] == ps[k]); } else { assert(qs[k] == ps[k + 1]); }
    }
    assert forall|k: int| 0 <= k < qs.len() - 1 implies (#[trigger] qs[k]).last() == '\n' by {
        if k < i { assert(qs[k] == ps[k]); } else { assert(qs[k] == ps[k + 1]); }
    }
    assert forall|k: int, j: int|
        0 <= k < qs.len() && 0 <= j < qs[k].len() - 1 implies #[trigger] qs[k][j] != '\n' by {
        if k < i { assert(qs[k] == ps[k]); } else { assert(qs[k] == ps[k + 1]); }
    }
    lemma_pieces_of_flatten(qs);
}

proof fn lemma_insert_piece(ps: Seq<Seq<char>>, i: int, np: Seq<char>)
    requires
        well_shaped(ps),
        0 <= i <= ps.len(),
        line_piece(np),
        i < ps.len() ==> np.last() == '\n',
        i == ps.len() && ps.len() > 0 ==> ps.last().last() == '\n',
    ensures
        well_shaped(ps.insert(i, np)),
        pieces(ps.insert(i, np).flatten()) == ps.insert(i, np),
{
    let qs = ps.insert(i, np);
    assert forall|k: int| 0 <= k < qs.len() implies (#[trigger] qs[k]).len() > 0 by {
        if k < i { assert(qs[k] == ps[k]); } else if k > i { assert(qs[k] == ps[k - 1]); }
    }
    assert forall|k: int| 0 <= k < qs.len() - 1 implies (#[trigger] qs[k]).last() == '\n' by {
        if k < i {
            assert(qs[k] == ps[k]);
            if k == ps.len() - 1 {
                assert(i == ps.len());
            }
        } else if k > i { assert(qs[k] == ps[k - 1]); }
    }
    assert forall|k: int, j: int|
        0 <= k < qs.len() && 0 <= j < qs[k].len() - 1 implies #[trigger] qs[k][j] != '\n' by {
        if k < i { assert(qs[k] == ps[k]); } else if k > i { assert(qs[k] == ps[k - 1]); }
    }
    lemma_pieces_of_flatten(qs);
}

/// Removing a line and inserting it back at the same place gives back the text.
pub proof fn law_remove_then_insert(c: Seq<char>, n: int)
    requires
        1 <= n <= pieces(c).len(),
    ensures
        spec_insert_line(spec_remove_line(c, n), n, pieces(c)[n - 1]) == c,
{
    let ps = pieces(c);
    lemma_pieces_shape(c);
    let raw = ps[n - 1];
    lemma_remove_piece(ps, n - 1);
    let ps1 = ps.remove(n - 1);
    let c1 = ps1.flatten();
    assert(pieces(c1) == ps1);
    assert(insert_index(ps1.len() as int, n) == n - 1);
    if n - 1 == ps1.len() && ps1.len() > 0 {
        assert(ps1.last() == ps[n - 2]);
    }
    if n - 1 < ps1.len() {
        assert(raw.last() == '\n');
        assert(raw.len() > 0);
    }
    assert(ps1.insert(n - 1, raw) =~= ps);
}

/// Inserting a single line and removing it again gives back the text, when
/// the line ends in a line feed or goes last, and the text is empty or ends
/// in a line feed when the line goes after its last line.
pub proof fn law_insert_then_remove(c: Seq<char>, n: int, raw: Seq<char>)
    requires
        1 <= n <= pieces(c).len() + 1,
        line_piece(raw),
        n <= pieces(c).len() ==> raw.last() == '\n',
        n == pieces(c).len() + 1 ==> c.len() == 0 || c.last() == '\n',
    ensures
        pieces(spec_insert_line(c, n, raw)).len() >= n,
        pieces(spec_insert_line(c, n, raw))[n - 1] == raw,
        spec_remove_line(spec_insert_line(c, n, raw), n) == c,
{
    let ps = pieces(c);
    lemma_pieces_shape(c);
    assert(insert_index(ps.len() as int, n) == n - 1);
    if n - 1 == ps.len() && ps.len() > 0 {
        lemma_last_piece(ps);
        assert(ps.last().last() == '\n');
    }
    lemma_insert_piece(ps, n - 1, raw);
    let qs = ps.insert(n - 1, raw);
    assert(spec_insert_line(c, n, raw) == qs.flatten());
    assert(qs.remove(n - 1) =~= ps);
}

/// The last character of a non-empty text is the last character of its last piece.
proof fn lemma_last_piece(ps: Seq<Seq<char>>)
    requires
        well_shaped(ps),
        ps.len() > 0,
    ensures
        ps.flatten().len() > 0,
        ps.flatten().last() == ps.last().last(),
{
    let x = ps.drop_last();
    assert(ps =~= x.push(ps.last()));
    x.lemma_flatten_push(ps.last());
    assert(ps.last().len() > 0);
}

/// The conditions under which an event replays and undoes cleanly on `c`:
/// its snapshots are consistent, and the lines it reads are the recorded ones.
pub open spec fn replayable(a: HistoryAction, c: Seq<char>) -> bool {
    let ps = pieces(c);
    match a {
        HistoryAction::Toggle { before, after, .. } | HistoryAction::Edit { before, after, .. } => {
            &&& snapshot_ok(before) && snapshot_ok(after)
            &&& before.line == after.line
            &&& before.line <= ps.len() && ps[before.line - 1] == before.raw@
            &&& before.line < ps.len() ==> after.raw@.last() == '\n'
        },
        HistoryAction::Add { after } => {
            &&& snapshot_ok(after)
            &&& after.line <= ps.len() + 1
            &&& after.line <= ps.len() ==> after.raw@.last() == '\n'
            &&& after.line == ps.len() + 1 ==> c.len() == 0 || c.last() == '\n'
        },
        HistoryAction::Move { before, after, .. } => {
            &&& snapshot_ok(before) && snapshot_ok(after)
            &&& before.line <= ps.len() && ps[before.line - 1] == before.raw@
            &&& after.line <= ps.len()
            &&& after.raw@.last() == '\n'
            &&& after.line == ps.len() ==> c.last() == '\n'
        },
        HistoryAction::Delete { before, .. } => {
            &&& snapshot_ok(before)
            &&& before.line <= ps.len() && ps[before.line - 1] == before.raw@
        },
        HistoryAction::ExternalEdit { .. } => true,
    }
}

/// Undo after redo gives back the file: when an event replays on `c`, the
/// replay succeeds, and undoing it on the result succeeds and yields `c`
/// again. Outside edits change nothing either way.
pub proof fn law_undo_restores(a: HistoryAction, c: Seq<char>)
    requires
        replayable(a, c),
    ensures
        spec_apply_forward(a, c) is Ok,
        match spec_apply_forward(a, c) {
            Ok(Some(c1)) => spec_apply_reverse(a, c1) == Ok::<Option<Seq<char>>, int>(Some(c)),
            Ok(None) => spec_apply_reverse(a, c) == Ok::<Option<Seq<char>>, int>(None),
            Err(_) => false,
        },
{
    let ps = pieces(c);
    lemma_pieces_shape(c);
    match a {
        HistoryAction::Toggle { before, after, .. } | HistoryAction::Edit { before, after, .. } => {
            let n = before.line as int;
            let c1 = spec_replace_line(c, n, after.raw@);
            lemma_update_piece(ps, n - 1, after.raw@);
            let ps1 = ps.update(n - 1, after.raw@);
            assert(pieces(c1) == ps1);
            assert(ps1[n - 1] == after.raw@);
            assert(ps1.update(n - 1, before.raw@) =~= ps);
        },
        HistoryAction::Add { after } => {
            law_insert_then_remove(c, after.line as int, after.raw@);
        },
        HistoryAction::Move { before, after, .. } => {
            let c1 = spec_remove_line(c, before.line as int);
            lemma_remove_piece(ps, before.line - 1);
            assert(pieces(c1) == ps.remove(before.line - 1));
            let ps1 = ps.remove(before.line - 1);
            if after.line == ps1.len() + 1 && c1.len() > 0 {
                lemma_last_piece(ps1);
                lemma_last_piece(ps);
                if before.line - 1 < ps.len() - 1 {
                    assert(ps1.last() == ps.last());
                } else {
                    assert(ps1.last() == ps[ps.len() - 2]);
                }
            }
            law_insert_then_remove(c1, after.line as int, after.raw@);
            law_remove_then_insert(c, before.line as int);
        },
        HistoryAction::Delete { before, .. } => {
            law_remove_then_insert(c, before.line as int);
        },
        HistoryAction::ExternalEdit { .. } => {},
    }
}


/// What the saved history needs after a change: nothing, the last event
/// appended, or a full rewrite. The cursor is saved after every change.
#[derive(Debug, Clone, Copy, PartialEq, Eq, Structural)]
pub enum PersistPlan {
    Nothing,
    Append,
    Rewrite,
}

/// Which way a jump through the timeline goes.
#[derive(Debug, Clone, Copy, PartialEq, Eq, Structural)]
pub enum JumpDirection {
    Undo,
    Redo,
}

/// The events a jump has to undo or redo, in the order to apply them.
pub struct JumpPlan {
    pub direction: JumpDirection,
    pub events: Vec<HistoryEvent>,
    pub external_count: usize,
}

#[verifier::external_type_specification]
#[verifier::external_body]
pub struct ExInstant(std::time::Instant);

/// `std::time::Instant::now()`; nothing is promised of the value.
#[verifier::external_body]
fn instant_now() -> std::time::Instant {
    std::time::Instant::now()
}

/// `Instant::duration_since`: the time from `prev` to `now` (zero when
/// `now` is earlier); nothing is promised of the value.
#[verifier::external_body]
fn duration_since(prev: &std::time::Instant, now: &std::time::Instant) -> std::time::Duration {
    now.duration_since(*prev)
}

/// `Duration::as_millis`: the whole milliseconds of a duration; nothing is
/// promised of the value.
#[verifier::external_body]
fn whole_millis(d: &std::time::Duration) -> u128 {
    d.as_millis()
}

/// Consecutive outside edits of one file closer together than this are merged.
pub const EXTERNAL_MERGE_WINDOW_MS: u128 = 500;

/// Whether the previous outside edit of a file, seen `elapsed_ms` whole
/// milliseconds ago (`None` when none was seen), is within the merge window.
pub open spec fn spec_in_merge_window(elapsed_ms: Option<u128>) -> bool {
    elapsed_ms matches Some(m) && m < EXTERNAL_MERGE_WINDOW_MS
}

/// See `spec_in_merge_window`.
pub fn in_merge_window(elapsed_ms: Option<u128>) -> (b: bool)
    ensures
        b == spec_in_merge_window(elapsed_ms),
{
    match elapsed_ms {
        Some(m) => m < EXTERNAL_MERGE_WINDOW_MS,
        None => false,
    }
}

/// Index of the first event at or after `i` with id `id`, or -1.
pub open spec fn position_from(evs: Seq<HistoryEvent>, id: Seq<char>, i: int) -> int
    decreases evs.len() - i,
{
    if i < 0 || i >= evs.len() {
        -1
    } else if evs[i].id@ == id {
        i
    } else {
        position_from(evs, id, i + 1)
    }
}

/// Index of the first event with id `id`, or -1.
pub open spec fn position_of(evs: Seq<HistoryEvent>, id: Seq<char>) -> int {
    position_from(evs, id, 0)
}

pub proof fn lemma_position_from(evs: Seq<HistoryEvent>, id: Seq<char>, i: int)
    requires
        0 <= i,
    ensures
        position_from(evs, id, i) == -1 || (i <= position_from(evs, id, i) < evs.len()
            && evs[position_from(evs, id, i)].id@ == id),
        forall|j: int| i <= j < evs.len() && (j < position_from(evs, id, i) || position_from(evs, id, i) == -1)
            ==> #[trigger] evs[j].id@ != id,
    decreases evs.len() - i,
{
    if i < evs.len() && evs[i].id@ != id {
        lemma_position_from(evs, id, i + 1);
    }
}

/// Index of the last event before `i` made in the application, or -1.
pub open spec fn last_app_before(evs: Seq<HistoryEvent>, i: int) -> int
    decreases i,
{
    if i <= 0 || i > evs.len() {
        -1
    } else if !(evs[i - 1].action is ExternalEdit) {
        i - 1
    } else {
        last_app_before(evs, i - 1)
    }
}

/// Index of the first event at or after `i` made in the application, or -1.
pub open spec fn first_app_from(evs: Seq<HistoryEvent>, i: int) -> int
    decreases evs.len() - i,
{
    if i < 0 || i >= evs.len() {
        -1
    } else if !(evs[i].action is ExternalEdit) {
        i
    } else {
        first_app_from(evs, i + 1)
    }
}

/// Where a saved cursor puts the cursor: after the event it names, at the
/// start when it names none, at the end when it is missing or unknown.
pub open spec fn spec_cursor_from_saved(evs: Seq<HistoryEvent>, saved: Option<Seq<char>>) -> int {
    match saved {
        None => evs.len() as int,
        Some(s) => {
            let t = crate::text::spec_trim(s);
            if t.len() == 0 {
                0
            } else if position_of(evs, t) >= 0 {
                position_of(evs, t) + 1
            } else {
                evs.len() as int
            }
        },
    }
}

/// The number of outside edits among `evs`.
pub open spec fn count_external(evs: Seq<HistoryEvent>) -> int
    decreases evs.len(),
{
    if evs.len() == 0 {
        0
    } else {
        count_external(evs.drop_last()) + if evs.last().action is ExternalEdit { 1int } else { 0int }
    }
}

/// The line feeds in a byte sequence.
pub open spec fn count_newlines(b: Seq<u8>) -> int
    decreases b.len(),
{
    if b.len() == 0 {
        0
    } else {
        count_newlines(b.drop_last()) + if b.last() == 10u8 { 1int } else { 0int }
    }
}

/// A crude line diff: identical texts change nothing; otherwise the change
/// in the number of line feeds counts as added or removed lines.
pub open spec fn spec_approx_diff(old: Seq<u8>, new: Seq<u8>) -> DiffSummary {
    if old == new {
        DiffSummary { added: 0, removed: 0, modified: 0 }
    } else {
        let o = count_newlines(old);
        let n = count_newlines(new);
        DiffSummary {
            added: if n > o { (n - o) as usize } else { 0 },
            removed: if o > n { (o - n) as usize } else { 0 },
            modified: 0,
        }
    }
}

fn count_newlines_exec(b: &Vec<u8>) -> (n: usize)
    ensures
        n == count_newlines(b@),
{
    let mut n: usize = 0;
    let mut i: usize = 0;
    while i < b.len()
        invariant
            i <= b@.len(),
            n == count_newlines(b@.take(i as int)),
            n <= i,
        decreases b@.len() - i,
    {
        proof {
            assert(b@.take(i + 1).drop_last() =~= b@.take(i as int));
        }
        if b[i] == 10u8 {
            n += 1;
        }
        i += 1;
    }
    proof {
        assert(b@.take(b@.len() as int) =~= b@);
    }
    n
}

/// Whether two byte vectors hold the same bytes.
pub fn bytes_equal(a: &Vec<u8>, b: &Vec<u8>) -> (r: bool)
    ensures
        r == (a@ == b@),
{
    if a.len() != b.len() {
        return false;
    }
    let mut i: usize = 0;
    while i < a.len()
        invariant
            i <= a@.len() == b@.len(),
            forall|j: int| 0 <= j < i ==> a@[j] == b@[j],
        decreases a@.len() - i,
    {
        if a[i] != b[i] {
            return false;
        }
        i += 1;
    }
    assert(a@ =~= b@);
    true
}

/// A copy of a byte vector.
pub fn copy_bytes(b: &Vec<u8>) -> (r: Vec<u8>)
    ensures
        r@ == b@,
{
    let mut r: Vec<u8> = Vec::new();
    let mut i: usize = 0;
    while i < b.len()
        invariant
            i <= b@.len(),
            r@ =~= b@.take(i as int),
        decreases b@.len() - i,
    {
        r.push(b[i]);
        i += 1;
    }
    r
}

/// Line counts of the change from `old` to `new` (see `spec_approx_diff`).
pub fn approx_diff(old: &Vec<u8>, new: &Vec<u8>) -> (d: DiffSummary)
    ensures
        d == spec_approx_diff(old@, new@),
{
    if bytes_equal(old, new) {
        return DiffSummary { added: 0, removed: 0, modified: 0 };
    }
    let o = count_newlines_exec(old);
    let n = count_newlines_exec(new);
    DiffSummary { added: n.saturating_sub(o), removed: o.saturating_sub(n), modified: 0 }
}


/// The note written on events that record outside edits.
pub open spec fn external_note() -> Seq<char> {
    "File changed outside Floaty Todo"@
}

/// The history of one hub: the events, the undo cursor (events before it
/// are applied, events from it on are undone), and what is needed to merge
/// and measure outside edits. File keys are canonical paths.
pub struct HistoryStore {
    file_path: String,
    cursor_path: String,
    events: Vec<HistoryEvent>,
    cursor: usize,
    /// Per file key, the id of the latest outside-edit event.
    external_last: Vec<(String, String)>,
    /// Per file key, when the latest outside edit was seen (this process only).
    external_last_at: Vec<(String, std::time::Instant)>,
    /// Per file key, the last known bytes of the file.
    snapshots: Vec<(String, Vec<u8>)>,
}

impl HistoryStore {
    /// The history file and the cursor file.
    pub closed spec fn paths(&self) -> (Seq<char>, Seq<char>) {
        (self.file_path@, self.cursor_path@)
    }

    /// The history file (one JSON event per line).
    pub fn file_path(&self) -> (p: &String)
        ensures
            p@ == self.paths().0,
    {
        &self.file_path
    }

    /// The cursor file (the id of the last applied event).
    pub fn cursor_path(&self) -> (p: &String)
        ensures
            p@ == self.paths().1,
    {
        &self.cursor_path
    }

    pub closed spec fn events(&self) -> Seq<HistoryEvent> {
        self.events@
    }

    pub closed spec fn cursor(&self) -> int {
        self.cursor as int
    }

    /// Id of the latest outside-edit event recorded for a file key.
    pub closed spec fn last_external(&self, key: Seq<char>) -> Option<Seq<char>> {
        lookup_id(self.external_last@, key)
    }

    /// When the latest outside edit of a file key was seen.
    pub closed spec fn last_external_at(&self, key: Seq<char>) -> Option<std::time::Instant> {
        lookup(self.external_last_at@, key)
    }

    /// The last known bytes of a file key.
    pub closed spec fn snapshot(&self, key: Seq<char>) -> Option<Seq<u8>> {
        match lookup(self.snapshots@, key) {
            Some(b) => Some(b@),
            None => None,
        }
    }

    /// The cursor never passes the end of the events.
    pub closed spec fn wf(&self) -> bool {
        &&& self.cursor <= self.events@.len()
        &&& distinct_keys(self.external_last@)
    }

    /// Replace the store with one over events read back from disk (see
    /// `from_loaded`), as after the history folder moved.
    pub fn reopen(
        &mut self,
        file_path: String,
        cursor_path: String,
        events: Vec<HistoryEvent>,
        saved_cursor: Option<String>,
        keys: Vec<String>,
    )
        requires
            keys@.len() == events@.len(),
        ensures
            final(self).wf(),
            final(self).events() == events@,
            final(self).cursor() == spec_cursor_from_saved(events@, opt_str_view(saved_cursor)),
            final(self).paths() == (file_path@, cursor_path@),
            forall|k: Seq<char>| #[trigger] final(self).snapshot(k) is None,
            forall|k: Seq<char>| #[trigger] final(self).last_external_at(k) is None,
            forall|k: Seq<char>| #[trigger] final(self).last_external(k) == latest_external(events@, keys@, events@.len() as int, k),
    {
        *self = HistoryStore::from_loaded(file_path, cursor_path, events, saved_cursor, keys);
    }

    /// A store over events read back from disk. `saved_cursor` is the
    /// content of the cursor file (`None` when there is none), `keys[i]` the
    /// file key of `events[i]`; the latest outside edit of each key is indexed.
    pub fn from_loaded(
        file_path: String,
        cursor_path: String,
        events: Vec<HistoryEvent>,
        saved_cursor: Option<String>,
        keys: Vec<String>,
    ) -> (st: HistoryStore)
        requires
            keys@.len() == events@.len(),
        ensures
            st.wf(),
            st.events() == events@,
            st.cursor() == spec_cursor_from_saved(events@, opt_str_view(saved_cursor)),
            st.paths() == (file_path@, cursor_path@),
            forall|k: Seq<char>| #[trigger] st.snapshot(k) is None,
            forall|k: Seq<char>| #[trigger] st.last_external_at(k) is None,
            forall|k: Seq<char>| #[trigger] st.last_external(k) == latest_external(events@, keys@, events@.len() as int, k),
    {
        let cursor = cursor_from_saved(&events, &saved_cursor);
        let mut external_last: Vec<(String, String)> = Vec::new();
        let mut i: usize = 0;
        while i < events.len()
            invariant
                i <= events@.len() == keys@.len(),
                distinct_keys(external_last@),
                forall|k: Seq<char>| #[trigger] lookup_id(external_last@, k) == latest_external(events@, keys@, i as int, k),
            decreases events@.len() - i,
        {
            let ghost before = external_last@;
            if events[i].action.is_external() {
                let k_i = keys[i].clone();
                let id_i = events[i].id.clone();
                assoc_set(&mut external_last, k_i, id_i);
                proof {
                    assert forall|k: Seq<char>| #[trigger] lookup_id(external_last@, k) == latest_external(events@, keys@, i + 1, k) by {
                        assert(lookup(external_last@, k) == if k == k_i@ { Some(id_i) } else { lookup(before, k) });
                        assert(lookup_id(before, k) == latest_external(events@, keys@, i as int, k));
                        assert(k_i@ == keys@[i as int]@);
                        assert(id_i@ == events@[i as int].id@);
                    }
                }
            } else {
                proof {
                    assert forall|k: Seq<char>| #[trigger] lookup_id(external_last@, k) == latest_external(events@, keys@, i + 1, k) by {
                        assert(lookup_id(before, k) == latest_external(events@, keys@, i as int, k));
                    }
                }
            }
            i += 1;
        }
        HistoryStore {
            file_path,
            cursor_path,
            events,
            cursor,
            external_last,
            external_last_at: Vec::new(),
            snapshots: Vec::new(),
        }
    }
}

/// Among the first `n` events, the id of the last outside edit whose file key is `k`.
pub open spec fn latest_external(evs: Seq<HistoryEvent>, keys: Seq<String>, n: int, k: Seq<char>) -> Option<Seq<char>>
    decreases n,
{
    if n <= 0 {
        None
    } else if evs[n - 1].action is ExternalEdit && keys[n - 1]@ == k {
        Some(evs[n - 1].id@)
    } else {
        latest_external(evs, keys, n - 1, k)
    }
}

/// `lookup` on a list of id pairs, as text.
pub open spec fn lookup_id(v: Seq<(String, String)>, k: Seq<char>) -> Option<Seq<char>> {
    match lookup(v, k) {
        Some(id) => Some(id@),
        None => None,
    }
}

/// The ids of `evs[from..]`.
pub open spec fn ids_from(evs: Seq<HistoryEvent>, from: int) -> Seq<Seq<char>> {
    Seq::new((evs.len() - from) as nat, |i: int| evs[from + i].id@)
}

/// After a push, an outside-edit index entry survives unless it named a dropped event.
pub open spec fn retained(old_id: Option<Seq<char>>, dropped: Seq<Seq<char>>) -> Option<Seq<char>> {
    match old_id {
        Some(id) => if dropped.contains(id) { None } else { Some(id) },
        None => None,
    }
}

impl HistoryStore {
    /// Record a new event after the cursor. Undone events after the cursor
    /// are dropped first (and the outside-edit index forgets them); the
    /// cursor then stands after the new event.
    pub fn push(&mut self, event: HistoryEvent) -> (plan: PersistPlan)
        requires
            old(self).wf(),
        ensures
            final(self).wf(),
            final(self).events() == old(self).events().take(old(self).cursor()).push(event),
            final(self).cursor() == final(self).events().len(),
            plan == if old(self).cursor() < old(self).events().len() { PersistPlan::Rewrite } else { PersistPlan::Append },
            forall|k: Seq<char>| #[trigger] final(self).last_external(k) == retained(
                old(self).last_external(k),
                ids_from(old(self).events(), old(self).cursor()),
            ),
            forall|k: Seq<char>| #[trigger] final(self).last_external_at(k) == old(self).last_external_at(k),
            forall|k: Seq<char>| #[trigger] final(self).snapshot(k) == old(self).snapshot(k),
            final(self).paths() == old(self).paths(),
    {
        if self.cursor < self.events.len() {
            let mut dropped: Vec<String> = Vec::new();
            let mut i = self.cursor;
            while i < self.events.len()
                invariant
                    self.cursor <= i <= self.events@.len(),
                    views_of(dropped@) =~= ids_from(self.events@, self.cursor as int).take(i - self.cursor),
                decreases self.events@.len() - i,
            {
                let ghost before = dropped@;
                dropped.push(self.events[i].id.clone());
                proof {
                    assert(views_of(dropped@) =~= views_of(before).push(self.events@[i as int].id@));
                    assert(ids_from(self.events@, self.cursor as int).take(i + 1 - self.cursor)
                        =~= ids_from(self.events@, self.cursor as int).take(i - self.cursor).push(self.events@[i as int].id@));
                }
                i += 1;
            }
            proof {
                assert(ids_from(self.events@, self.cursor as int).take(self.events@.len() - self.cursor)
                    =~= ids_from(self.events@, self.cursor as int));
            }
            let ghost old_events = self.events@;
            let ghost old_index = self.external_last@;
            self.events.truncate(self.cursor);
            self.events.push(event);
            self.cursor = self.events.len();
            assoc_retain_values(&mut self.external_last, &dropped);
            proof {
                assert forall|k: Seq<char>| #[trigger] lookup_id(self.external_last@, k) == retained(
                    lookup_id(old_index, k),
                    ids_from(old_events, old(self).cursor()),
                ) by {}
            }
            PersistPlan::Rewrite
        } else {
            proof {
                assert(self.events@.take(self.cursor as int) =~= self.events@);
                assert forall|k: Seq<char>| #[trigger] retained(lookup_id(self.external_last@, k), ids_from(self.events@, self.cursor as int))
                    == lookup_id(self.external_last@, k) by {
                    assert(ids_from(self.events@, self.cursor as int).len() == 0);
                }
            }
            self.events.push(event);
            self.cursor = self.events.len();
            PersistPlan::Append
        }
    }

    /// The next event an undo would target: the last one before the cursor
    /// made in the application (outside edits are skipped).
    pub fn peek_undo(&self) -> (r: Option<HistoryEvent>)
        requires
            self.wf(),
        ensures
            match r {
                Some(e) => last_app_before(self.events(), self.cursor()) >= 0
                    && e == self.events()[last_app_before(self.events(), self.cursor())],
                None => last_app_before(self.events(), self.cursor()) == -1,
            },
    {
        let mut i = self.cursor;
        while i > 0 && self.events[i - 1].action.is_external()
            invariant
                i <= self.cursor <= self.events@.len(),
                last_app_before(self.events@, self.cursor as int) == last_app_before(self.events@, i as int),
            decreases i,
        {
            i -= 1;
        }
        if i == 0 {
            None
        } else {
            Some(self.events[i - 1].clone())
        }
    }

    /// The next event a redo would target: the first one from the cursor on
    /// made in the application.
    pub fn peek_redo(&self) -> (r: Option<HistoryEvent>)
        requires
            self.wf(),
        ensures
            match r {
                Some(e) => first_app_from(self.events(), self.cursor()) >= 0
                    && e == self.events()[first_app_from(self.events(), self.cursor())],
                None => first_app_from(self.events(), self.cursor()) == -1,
            },
    {
        let mut i = self.cursor;
        while i < self.events.len() && self.events[i].action.is_external()
            invariant
                self.cursor <= i <= self.events@.len(),
                first_app_from(self.events@, self.cursor as int) == first_app_from(self.events@, i as int),
            decreases self.events@.len() - i,
        {
            i += 1;
        }
        if i == self.events.len() {
            None
        } else {
            Some(self.events[i].clone())
        }
    }

    /// Move the cursor to just before the event `event_id` (it is then undone).
    pub fn commit_undo(&mut self, event_id: &str) -> (res: Result<(), AppError>)
        requires
            old(self).wf(),
        ensures
            final(self).wf(),
            final(self).events() == old(self).events(),
            final(self).paths() == old(self).paths(),
            forall|k: Seq<char>| #[trigger] final(self).last_external(k) == old(self).last_external(k),
            forall|k: Seq<char>| #[trigger] final(self).last_external_at(k) == old(self).last_external_at(k),
            forall|k: Seq<char>| #[trigger] final(self).snapshot(k) == old(self).snapshot(k),
            match res {
                Ok(()) => position_of(old(self).events(), event_id@) >= 0
                    && final(self).cursor() == position_of(old(self).events(), event_id@),
                Err(e) => position_of(old(self).events(), event_id@) == -1
                    && final(self).cursor() == old(self).cursor()
                    && crate::storage::is_command_failed(e, "history event not found"@),
            },
    {
        match find_event(&self.events, event_id) {
            Some(idx) => {
                self.cursor = idx;
                Ok(())
            },
            None => Err(AppError::CommandFailed(String::from_str("history event not found"))),
        }
    }

    /// Move the cursor to just after the event `event_id` (it is then applied).
    pub fn commit_redo(&mut self, event_id: &str) -> (res: Result<(), AppError>)
        requires
            old(self).wf(),
        ensures
            final(self).wf(),
            final(self).events() == old(self).events(),
            final(self).paths() == old(self).paths(),
            forall|k: Seq<char>| #[trigger] final(self).last_external(k) == old(self).last_external(k),
            forall|k: Seq<char>| #[trigger] final(self).last_external_at(k) == old(self).last_external_at(k),
            forall|k: Seq<char>| #[trigger] final(self).snapshot(k) == old(self).snapshot(k),
            match res {
                Ok(()) => position_of(old(self).events(), event_id@) >= 0
                    && final(self).cursor() == position_of(old(self).events(), event_id@) + 1,
                Err(e) => position_of(old(self).events(), event_id@) == -1
                    && final(self).cursor() == old(self).cursor()
                    && crate::storage::is_command_failed(e, "history event not found"@),
            },
    {
        let n = self.events.len();
        match find_event(&self.events, event_id) {
            Some(idx) => {
                self.cursor = idx + 1;
                Ok(())
            },
            None => Err(AppError::CommandFailed(String::from_str("history event not found"))),
        }
    }

    /// Up to `limit` events before `before_id` (or before the end when it is
    /// absent or unknown), newest first.
    pub fn list(&self, limit: usize, before_id: Option<&str>) -> (r: Vec<HistoryEvent>)
        ensures
            ({
                let end = match before_id {
                    Some(id) => if position_of(self.events(), id@) >= 0 { position_of(self.events(), id@) } else { self.events().len() as int },
                    None => self.events().len() as int,
                };
                let newest_first = self.events().take(end).reverse();
                r@ == newest_first.take(if limit < newest_first.len() { limit as int } else { newest_first.len() as int })
            }),
    {
        let end = match before_id {
            Some(id) => match find_event(&self.events, id) {
                Some(p) => p,
                None => self.events.len(),
            },
            None => self.events.len(),
        };
        let ghost newest_first = self.events@.take(end as int).reverse();
        let mut out: Vec<HistoryEvent> = Vec::new();
        let mut j = end;
        while j > 0 && out.len() < limit
            invariant
                j <= end <= self.events@.len(),
                out@.len() == end - j,
                out@.len() <= limit,
                newest_first == self.events@.take(end as int).reverse(),
                out@ =~= newest_first.take(end - j),
            decreases j,
        {
            out.push(self.events[j - 1].clone());
            j -= 1;
        }
        proof {
            if limit < newest_first.len() {
                assert(out@.len() == limit);
            }
        }
        out
    }

    /// Id of the last applied event (the one just before the cursor).
    pub fn cursor_id(&self) -> (r: Option<&str>)
        requires
            self.wf(),
        ensures
            self.cursor() <= self.events().len(),
            match r {
                Some(id) => self.cursor() >= 1 && id@ == self.events()[self.cursor() - 1].id@,
                None => self.cursor() == 0,
            },
    {
        if self.cursor == 0 {
            None
        } else {
            Some(self.events[self.cursor - 1].id.as_str())
        }
    }

    /// `cursor_id` as an owned string.
    pub fn cursor_id_owned(&self) -> (r: Option<String>)
        requires
            self.wf(),
        ensures
            match r {
                Some(id) => self.cursor() >= 1 && id@ == self.events()[self.cursor() - 1].id@,
                None => self.cursor() == 0,
            },
    {
        match self.cursor_id() {
            Some(id) => Some(String::from_str(id)),
            None => None,
        }
    }

    /// Remember the bytes of a file the application just wrote, so the next
    /// outside edit of it is measured against them.
    pub fn record_file_snapshot(&mut self, key: String, bytes: Vec<u8>)
        requires
            old(self).wf(),
        ensures
            final(self).wf(),
            final(self).events() == old(self).events(),
            final(self).cursor() == old(self).cursor(),
            final(self).paths() == old(self).paths(),
            forall|k: Seq<char>| #[trigger] final(self).snapshot(k) == if k == key@ { Some(bytes@) } else { old(self).snapshot(k) },
            forall|k: Seq<char>| #[trigger] final(self).last_external(k) == old(self).last_external(k),
            forall|k: Seq<char>| #[trigger] final(self).last_external_at(k) == old(self).last_external_at(k),
    {
        let ghost b = bytes@;
        assoc_set(&mut self.snapshots, key, bytes);
    }
}

/// The events of a jump to event `target` from cursor `cursor`, with its direction.
pub open spec fn spec_jump_events(evs: Seq<HistoryEvent>, cursor: int, target: int) -> (JumpDirection, Seq<HistoryEvent>) {
    if cursor >= 1 && cursor - 1 == target {
        (JumpDirection::Redo, Seq::empty())
    } else if cursor >= 1 && target < cursor - 1 {
        (JumpDirection::Undo, evs.subrange(target + 1, cursor).reverse())
    } else {
        (JumpDirection::Redo, evs.subrange(if cursor < evs.len() { cursor } else { evs.len() as int }, target + 1))
    }
}

/// A jump to the event at index `target` changes exactly the events whose
/// applied state differs between the cursor `cursor` and the cursor just
/// after the target: a redo jump (when the target is at or after the last
/// applied event) replays, oldest first, the events from the cursor up to
/// and including the target, none of them already applied; an undo jump
/// reverts, newest first, the applied events after the target.
pub proof fn law_jump_moves_exactly(evs: Seq<HistoryEvent>, cursor: int, target: int)
    requires
        0 <= cursor <= evs.len(),
        0 <= target < evs.len(),
    ensures
        ({
            let (d, es) = spec_jump_events(evs, cursor, target);
            &&& (d == JumpDirection::Redo) == (cursor <= target + 1)
            &&& d == JumpDirection::Redo ==> {
                &&& es.len() == if cursor <= target { target + 1 - cursor } else { 0 }
                &&& forall|k: int| 0 <= k < es.len() ==> #[trigger] es[k] == evs[cursor + k]
            }
            &&& d == JumpDirection::Undo ==> {
                &&& es.len() == cursor - 1 - target
                &&& forall|k: int| 0 <= k < es.len() ==> #[trigger] es[k] == evs[cursor - 1 - k]
            }
        }),
{
}

/// The text the cursor file holds for a cursor `c`: the id of the last
/// applied event, or nothing when none is applied.
pub open spec fn saved_cursor_text(evs: Seq<HistoryEvent>, c: int) -> Seq<char> {
    if c == 0 {
        Seq::empty()
    } else {
        evs[c - 1].id@
    }
}

/// Saving the cursor and loading it back gives the same cursor, for events
/// with distinct ids that are not blank and carry no white space at either
/// end: an empty cursor file means nothing is applied, an id means every
/// event up to it is applied. A missing cursor file means all are applied.
pub proof fn law_cursor_round_trip(evs: Seq<HistoryEvent>, c: int)
    requires
        0 <= c <= evs.len(),
        unique_ids(evs),
        forall|i: int| 0 <= i < evs.len() ==> (#[trigger] evs[i]).id@.len() > 0 && crate::text::spec_trim(evs[i].id@) == evs[i].id@,
    ensures
        spec_cursor_from_saved(evs, Some(saved_cursor_text(evs, c))) == c,
        spec_cursor_from_saved(evs, None) == evs.len(),
{
    if c > 0 {
        lemma_position_unique(evs, c - 1);
        assert(evs[c - 1].id@.len() > 0);
    } else {
        crate::text::lemma_ws_end(Seq::<char>::empty(), 0);
    }
}

/// The outside-edit event after merging one more outside edit into it.
pub open spec fn merged_event(e: HistoryEvent, d: DiffSummary, delta: i64, ts: String) -> HistoryEvent {
    HistoryEvent {
        ts,
        action: match e.action {
            HistoryAction::ExternalEdit { diff_summary, size_bytes_delta, note } => HistoryAction::ExternalEdit {
                diff_summary: DiffSummary {
                    added: diff_summary.added.wrapping_add(d.added),
                    removed: diff_summary.removed.wrapping_add(d.removed),
                    modified: diff_summary.modified.wrapping_add(d.modified),
                },
                size_bytes_delta: size_bytes_delta.wrapping_add(delta),
                note,
            },
            other => other,
        },
        ..e
    }
}

pub open spec fn opt_str_view(o: Option<String>) -> Option<Seq<char>> {
    match o {
        Some(s) => Some(s@),
        None => None,
    }
}

/// Index of the first event with id `id`.
pub fn find_event(evs: &Vec<HistoryEvent>, id: &str) -> (r: Option<usize>)
    ensures
        match r {
            Some(i) => i as int == position_of(evs@, id@) && i < evs@.len(),
            None => position_of(evs@, id@) == -1,
        },
{
    let key = String::from_str(id);
    let mut i: usize = 0;
    while i < evs.len()
        invariant
            i <= evs@.len(),
            key@ == id@,
            position_of(evs@, id@) == position_from(evs@, id@, i as int),
        decreases evs@.len() - i,
    {
        if evs[i].id == key {
            return Some(i);
        }
        i += 1;
    }
    None
}

/// Where the cursor stands after loading (see `spec_cursor_from_saved`).
pub fn cursor_from_saved(evs: &Vec<HistoryEvent>, saved: &Option<String>) -> (c: usize)
    ensures
        c == spec_cursor_from_saved(evs@, opt_str_view(*saved)),
        c <= evs@.len(),
        match *saved {
            None => c == evs@.len(),
            Some(s) => {
                let t = crate::text::spec_trim(s@);
                &&& t.len() == 0 ==> c == 0
                &&& t.len() > 0 ==> ({
                    ||| (c >= 1 && evs@[c - 1].id@ == t && forall|i: int| 0 <= i < c - 1 ==> (#[trigger] evs@[i]).id@ != t)
                    ||| (c == evs@.len() && forall|i: int| 0 <= i < evs@.len() ==> (#[trigger] evs@[i]).id@ != t)
                })
            },
        },
{
    proof {
        if saved.is_some() {
            lemma_position_from(evs@, crate::text::spec_trim(saved->0@), 0);
        }
    }
    match saved {
        None => evs.len(),
        Some(s) => {
            let t = crate::text::trimmed_chars(s.as_str());
            if t.len() == 0 {
                return 0;
            }
            let id = crate::text::string_of(&t, 0, t.len());
            assert(id@ =~= t@);
            let n = evs.len();
            match find_event(evs, id.as_str()) {
                Some(i) => i + 1,
                None => evs.len(),
            }
        },
    }
}


/// The size change between two byte counts, as the difference of their `i64` casts.
pub open spec fn size_delta(new_len: int, old_len: int) -> i64 {
    (new_len - old_len) as i64
}

/// How `record_external_edit` changes a store `before` into `after`: the
/// outside edit of file key `key` with new bytes `new_bytes`, recorded with
/// the clock read `now`, the whole milliseconds `elapsed_ms` since the
/// file's previous outside edit was seen (`None` when none was), and `new_id`
/// and `ts` for a new event; `plan` is what is to be saved.
pub open spec fn external_edit_recorded(
    before: HistoryStore,
    after: HistoryStore,
    source_id: String,
    file: String,
    key: Seq<char>,
    new_bytes: Seq<u8>,
    now: std::time::Instant,
    elapsed_ms: Option<u128>,
    new_id: String,
    ts: String,
    plan: PersistPlan,
) -> bool {
    let prev = before.snapshot(key);
    let unchanged = {
        &&& after.events() == before.events()
        &&& after.cursor() == before.cursor()
        &&& forall|k: Seq<char>| #[trigger] after.last_external(k) == before.last_external(k)
        &&& forall|k: Seq<char>| #[trigger] after.last_external_at(k) == before.last_external_at(k)
    };
    if prev == Some(new_bytes) {
        &&& plan == PersistPlan::Nothing
        &&& unchanged
        &&& forall|k: Seq<char>| #[trigger] after.snapshot(k) == before.snapshot(k)
    } else {
        &&& forall|k: Seq<char>| #[trigger] after.snapshot(k) == if k == key { Some(new_bytes) } else { before.snapshot(k) }
        &&& match prev {
            None => plan == PersistPlan::Nothing && unchanged,
            Some(p) => {
                let d = spec_approx_diff(p, new_bytes);
                let delta = size_delta(new_bytes.len() as int, p.len() as int);
                let target = match before.last_external(key) {
                    Some(eid) => if spec_in_merge_window(elapsed_ms) { position_of(before.events(), eid) } else { -1 },
                    None => -1,
                };
                &&& forall|k: Seq<char>| k != key ==> #[trigger] after.last_external_at(k) == before.last_external_at(k)
                &&& after.last_external_at(key) == Some(now)
                &&& if target >= 0 {
                    &&& plan == PersistPlan::Rewrite
                    &&& after.events() == before.events().update(target, merged_event(before.events()[target], d, delta, ts))
                    &&& after.cursor() == before.cursor()
                    &&& forall|k: Seq<char>| #[trigger] after.last_external(k) == before.last_external(k)
                } else {
                    let e = HistoryEvent {
                        id: new_id,
                        ts,
                        source_id,
                        file,
                        action: HistoryAction::ExternalEdit { diff_summary: d, size_bytes_delta: delta, note: after.events().last().action->note },
                    };
                    &&& plan == if before.cursor() < before.events().len() { PersistPlan::Rewrite } else { PersistPlan::Append }
                    &&& after.events() == before.events().take(before.cursor()).push(e)
                    &&& after.events().last().action->note@ == external_note()
                    &&& after.cursor() == after.events().len()
                    &&& after.last_external(key) == Some(new_id@)
                    &&& forall|k: Seq<char>| k != key ==> #[trigger] after.last_external(k) == retained(
                        before.last_external(k),
                        ids_from(before.events(), before.cursor()),
                    )
                }
            },
        }
    }
}

/// What an outside edit does to the timeline whatever the clock, the id
/// generator and the time of day give. Bytes equal to the last known ones,
/// or a file without known bytes, leave the timeline and the cursor as they
/// are. Otherwise, with `d` the line diff and `delta` the size change
/// against the known bytes, either one new outside-edit event of `source_id`
/// and `file` carrying `d`, `delta` and the outside-edit note is recorded
/// after the cursor (undone events dropped) and indexed for the file, or the
/// file's latest outside-edit event, still on the timeline, absorbs `d` and
/// `delta` (a new timestamp being all else that changes in it).
pub open spec fn external_edit_outcome(
    before: HistoryStore,
    after: HistoryStore,
    source_id: String,
    file: String,
    key: Seq<char>,
    new_bytes: Seq<u8>,
    plan: PersistPlan,
) -> bool {
    let unchanged = plan == PersistPlan::Nothing && after.events() == before.events() && after.cursor() == before.cursor();
    match before.snapshot(key) {
        None => unchanged,
        Some(p) => if p == new_bytes {
            unchanged
        } else {
            let d = spec_approx_diff(p, new_bytes);
            let delta = size_delta(new_bytes.len() as int, p.len() as int);
            ||| {
                let e = after.events().last();
                &&& after.events() == before.events().take(before.cursor()).push(e)
                &&& after.cursor() == after.events().len()
                &&& e.source_id == source_id
                &&& e.file == file
                &&& e.action matches HistoryAction::ExternalEdit { diff_summary, size_bytes_delta, note }
                &&& e.action->diff_summary == d
                &&& e.action->size_bytes_delta == delta
                &&& e.action->note@ == external_note()
                &&& after.last_external(key) == Some(e.id@)
                &&& plan == if before.cursor() < before.events().len() { PersistPlan::Rewrite } else { PersistPlan::Append }
            }
            ||| {
                &&& before.last_external(key) matches Some(eid)
                &&& 0 <= position_of(before.events(), eid) < before.events().len()
                &&& before.events()[position_of(before.events(), eid)].id@ == eid
                &&& after.events() == before.events().update(
                    position_of(before.events(), eid),
                    merged_event(
                        before.events()[position_of(before.events(), eid)],
                        d,
                        delta,
                        after.events()[position_of(before.events(), eid)].ts,
                    ),
                )
                &&& after.cursor() == before.cursor()
                &&& plan == PersistPlan::Rewrite
            }
        },
    }
}

/// Whatever the clock, id and timestamp, a recorded outside edit
/// has the outcome `external_edit_outcome` describes.
pub proof fn lemma_recorded_outcome(
    before: HistoryStore,
    after: HistoryStore,
    source_id: String,
    file: String,
    key: Seq<char>,
    new_bytes: Seq<u8>,
    now: std::time::Instant,
    elapsed_ms: Option<u128>,
    new_id: String,
    ts: String,
    plan: PersistPlan,
)
    requires
        external_edit_recorded(before, after, source_id, file, key, new_bytes, now, elapsed_ms, new_id, ts, plan),
    ensures
        external_edit_outcome(before, after, source_id, file, key, new_bytes, plan),
{
    if let Some(p) = before.snapshot(key) {
        if p != new_bytes {
            if let Some(eid) = before.last_external(key) {
                if spec_in_merge_window(elapsed_ms) {
                    lemma_position_from(before.events(), eid, 0);
                }
            }
        }
    }
}

/// The cursor of a well-formed store (every store that `from_loaded` or
/// `reopen` makes and the other operations change) never passes the end of
/// the events, so `cursor_id`, `peek_undo`, `peek_redo` and `jump_plan`
/// index only events that exist.
pub proof fn lemma_cursor_in_range(s: HistoryStore)
    requires
        s.wf(),
    ensures
        0 <= s.cursor() <= s.events().len(),
{
}

impl HistoryStore {
    /// The events to undo or redo to reach event `event_id`, in the order
    /// to apply them, with the number of outside edits among them; `None`
    /// when there is no such event. Reaching the event before the cursor needs nothing.
    pub fn jump_plan(&self, event_id: &str) -> (r: Option<JumpPlan>)
        requires
            self.wf(),
        ensures
            match r {
                None => position_of(self.events(), event_id@) == -1,
                Some(plan) => {
                    let t = position_of(self.events(), event_id@);
                    &&& t >= 0
                    &&& (plan.direction, plan.events@) == spec_jump_events(self.events(), self.cursor(), t)
                    &&& plan.external_count == count_external(plan.events@)
                    &&& (plan.direction == JumpDirection::Redo) == (self.cursor() <= t + 1)
                    &&& plan.direction == JumpDirection::Redo ==> plan.events@ == self.events().subrange(
                        self.cursor(),
                        if self.cursor() <= t { t + 1 } else { self.cursor() },
                    )
                    &&& plan.direction == JumpDirection::Undo ==> plan.events@ == self.events().subrange(t + 1, self.cursor()).reverse()
                },
            },
    {
        let target = match find_event(&self.events, event_id) {
            Some(t) => t,
            None => return None,
        };
        proof {
            law_jump_moves_exactly(self.events@, self.cursor as int, target as int);
        }
        let n = self.events.len();
        if self.cursor >= 1 && self.cursor - 1 == target {
            let plan = JumpPlan { direction: JumpDirection::Redo, events: Vec::new(), external_count: 0 };
            assert(plan.events@ =~= Seq::<HistoryEvent>::empty());
            return Some(plan);
        }
        let mut events: Vec<HistoryEvent> = Vec::new();
        let direction;
        if self.cursor >= 1 && target < self.cursor - 1 {
            direction = JumpDirection::Undo;
            let ghost seg = self.events@.subrange(target + 1, self.cursor as int).reverse();
            let mut j = self.cursor;
            while j > target + 1
                invariant
                    target + 1 <= j <= self.cursor <= self.events@.len(),
                    seg == self.events@.subrange(target + 1, self.cursor as int).reverse(),
                    events@ =~= seg.take(self.cursor - j),
                decreases j,
            {
                events.push(self.events[j - 1].clone());
                j -= 1;
            }
            proof {
                assert(seg.take(self.cursor - target - 1) =~= seg);
            }
        } else {
            direction = JumpDirection::Redo;
            let start = if self.cursor < n { self.cursor } else { n };
            let mut j = start;
            while j <= target
                invariant
                    start <= j <= target + 1,
                    target < self.events@.len(),
                    n == self.events@.len(),
                    events@ =~= self.events@.subrange(start as int, j as int),
                decreases target + 1 - j,
            {
                events.push(self.events[j].clone());
                j += 1;
            }
        }
        let external_count = count_external_exec(&events);
        Some(JumpPlan { direction, events, external_count })
    }

    /// Record an outside edit of the file with key `key` whose new bytes are
    /// `new_bytes`, with the clock read `now`, the whole milliseconds since
    /// the previous outside edit of that file was seen (`elapsed_ms`, `None`
    /// when none was), and the id and timestamp a new event gets.
    ///
    /// Bytes equal to the last known ones are no edit. A file without known
    /// bytes only gets them recorded. Otherwise the line diff and size change
    /// against the known bytes are measured and the new bytes recorded; within
    /// the merge window (`spec_in_merge_window`), and while the file's latest outside-edit event still
    /// exists, that event absorbs the counts and takes the new timestamp;
    /// else a new outside-edit event is pushed and indexed.
    pub fn record_external_edit(
        &mut self,
        source_id: String,
        file: String,
        key: String,
        new_bytes: Vec<u8>,
        now: std::time::Instant,
        elapsed_ms: Option<u128>,
        new_id: String,
        ts: String,
    ) -> (plan: PersistPlan)
        requires
            old(self).wf(),
        ensures
            final(self).wf(),
            final(self).paths() == old(self).paths(),
            external_edit_recorded(*old(self), *final(self), source_id, file, key@, new_bytes@, now, elapsed_ms, new_id, ts, plan),
    {
        let prev = match assoc_find(&self.snapshots, key.as_str()) {
            Some(i) => {
                if bytes_equal(&self.snapshots[i].1, &new_bytes) {
                    return PersistPlan::Nothing;
                }
                copy_bytes(&self.snapshots[i].1)
            },
            None => {
                assoc_set(&mut self.snapshots, key, new_bytes);
                return PersistPlan::Nothing;
            },
        };
        let summary = approx_diff(&prev, &new_bytes);
        let delta = #[verifier::truncate] (((new_bytes.len() as i128) - (prev.len() as i128)) as i64);
        let ghost nb = new_bytes@;
        let key2 = key.clone();
        assoc_set(&mut self.snapshots, key2, new_bytes);
        assert(self.snapshot(key@) == Some(nb));
        if in_merge_window(elapsed_ms) {
            if let Some(li) = assoc_find(&self.external_last, key.as_str()) {
                let existing_id = self.external_last[li].1.clone();
                if let Some(pos) = find_event(&self.events, existing_id.as_str()) {
                    let mut event = self.events[pos].clone();
                    let action = match event.action {
                        HistoryAction::ExternalEdit { diff_summary, size_bytes_delta, note } => HistoryAction::ExternalEdit {
                            diff_summary: DiffSummary {
                                added: diff_summary.added.wrapping_add(summary.added),
                                removed: diff_summary.removed.wrapping_add(summary.removed),
                                modified: diff_summary.modified.wrapping_add(summary.modified),
                            },
                            size_bytes_delta: size_bytes_delta.wrapping_add(delta),
                            note,
                        },
                        other => other,
                    };
                    event.action = action;
                    event.ts = ts;
                    self.events.set(pos, event);
                    assoc_set(&mut self.external_last_at, key, now);
                    return PersistPlan::Rewrite;
                }
            }
        }
        let event = HistoryEvent {
            id: new_id.clone(),
            ts,
            source_id,
            file,
            action: HistoryAction::ExternalEdit {
                diff_summary: summary,
                size_bytes_delta: delta,
                note: String::from_str("File changed outside Floaty Todo"),
            },
        };
        let ghost ev = event;
        let ghost pre = *self;
        let plan = self.push(event);
        let ghost pushed = *self;
        assoc_set(&mut self.external_last, key.clone(), new_id);
        assoc_set(&mut self.external_last_at, key, now);
        proof {
            assert forall|k: Seq<char>| #[trigger] self.snapshot(k) == pre.snapshot(k) by {
                assert(pushed.snapshot(k) == pre.snapshot(k));
            }
            assert forall|k: Seq<char>| k != key@ implies #[trigger] self.last_external_at(k) == old(self).last_external_at(k) by {
                assert(pushed.last_external_at(k) == pre.last_external_at(k));
            }
            assert forall|k: Seq<char>| k != key@ implies #[trigger] self.last_external(k) == retained(
                    old(self).last_external(k), ids_from(old(self).events(), old(self).cursor())) by {
                assert(pushed.last_external(k) == retained(pre.last_external(k), ids_from(pre.events(), pre.cursor())));
            }
            assert(self.events@.last() == ev);
            assert(delta == size_delta(nb.len() as int, prev@.len() as int));
        }
        plan
    }

    /// Record an outside edit (see `record_external_edit`), reading the
    /// clock for the merge window and drawing a fresh id and timestamp.
    /// Whatever those give, the timeline changes as `external_edit_outcome`
    /// states, and the store is the one `record_external_edit` makes for some
    /// clock reading, elapsed time (none when no earlier outside edit of the
    /// file was seen), id and timestamp.
    pub fn push_external_edit(&mut self, source_id: String, file: String, key: String, new_bytes: Vec<u8>) -> (plan: PersistPlan)
        requires
            old(self).wf(),
        ensures
            final(self).wf(),
            final(self).paths() == old(self).paths(),
            forall|k: Seq<char>| #[trigger] final(self).snapshot(k) == if k == key@ { Some(new_bytes@) } else { old(self).snapshot(k) },
            external_edit_outcome(*old(self), *final(self), source_id, file, key@, new_bytes@, plan),
            exists|now: std::time::Instant, elapsed: Option<u128>, id: String, ts: String|
                #[trigger] external_edit_recorded(*old(self), *final(self), source_id, file, key@, new_bytes@, now, elapsed, id, ts, plan)
                && (old(self).last_external_at(key@) is None ==> elapsed is None),
    {
        let now = instant_now();
        let elapsed_ms: Option<u128> = match assoc_find(&self.external_last_at, key.as_str()) {
            Some(i) => Some(whole_millis(&duration_since(&self.external_last_at[i].1, &now))),
            None => None,
        };
        let new_id = new_event_id();
        let ts = ts_or_epoch(current_ts());
        let ghost (g_now, g_id, g_ts, g_src, g_file, g_key, g_bytes) = (now, new_id, ts, source_id, file, key@, new_bytes@);
        let plan = self.record_external_edit(source_id, file, key, new_bytes, now, elapsed_ms, new_id, ts);
        proof {
            assert(external_edit_recorded(*old(self), *self, g_src, g_file, g_key, g_bytes, g_now, elapsed_ms, g_id, g_ts, plan));
            lemma_recorded_outcome(*old(self), *self, g_src, g_file, g_key, g_bytes, g_now, elapsed_ms, g_id, g_ts, plan);
        }
        plan
    }
}

/// The number of outside edits in a vector of events.
fn count_external_exec(evs: &Vec<HistoryEvent>) -> (n: usize)
    ensures
        n == count_external(evs@),
{
    let mut n: usize = 0;
    let mut i: usize = 0;
    while i < evs.len()
        invariant
            i <= evs@.len(),
            n == count_external(evs@.take(i as int)),
            n <= i,
        decreases evs@.len() - i,
    {
        proof {
            assert(evs@.take(i + 1).drop_last() =~= evs@.take(i as int));
        }
        if evs[i].action.is_external() {
            n += 1;
        }
        i += 1;
    }
    proof {
        assert(evs@.take(evs@.len() as int) =~= evs@);
    }
    n
}


/// No two events share an id.
pub open spec fn unique_ids(evs: Seq<HistoryEvent>) -> bool {
    forall|a: int, b: int| 0 <= a < b < evs.len() ==> (#[trigger] evs[a]).id@ != (#[trigger] evs[b]).id@
}

proof fn lemma_position_unique(evs: Seq<HistoryEvent>, i: int)
    requires
        unique_ids(evs),
        0 <= i < evs.len(),
    ensures
        position_of(evs, evs[i].id@) == i,
{
    lemma_position_from(evs, evs[i].id@, 0);
    let p = position_of(evs, evs[i].id@);
    if p != i {
        if p >= 0 && p < i {
            assert(evs[p].id@ != evs[i].id@);
        }
    }
}

/// After a push, the pushed event (when made in the application) is what an
/// undo targets, and nothing is left to redo.
pub proof fn law_push_then_undo(evs: Seq<HistoryEvent>, cursor: int, e: HistoryEvent)
    requires
        0 <= cursor <= evs.len(),
        !(e.action is ExternalEdit),
    ensures
        ({
            let n = evs.take(cursor).push(e);
            &&& last_app_before(n, n.len() as int) == n.len() - 1
            &&& n[n.len() - 1] == e
            &&& first_app_from(n, n.len() as int) == -1
        }),
{
}

/// Undo then redo: committing the undo of the event that an undo targets
/// makes that same event the redo target, and committing its redo makes it
/// the undo target again (ids being unique).
pub proof fn law_undo_then_redo(evs: Seq<HistoryEvent>, cursor: int)
    requires
        0 <= cursor <= evs.len(),
        unique_ids(evs),
        last_app_before(evs, cursor) >= 0,
    ensures
        ({
            let i = last_app_before(evs, cursor);
            let after_undo = position_of(evs, evs[i].id@);
            &&& after_undo == i
            &&& first_app_from(evs, after_undo) == i
            &&& position_of(evs, evs[first_app_from(evs, after_undo)].id@) + 1 == i + 1
            &&& last_app_before(evs, i + 1) == i
        }),
{
    lemma_last_app_before(evs, cursor);
    let i = last_app_before(evs, cursor);
    lemma_position_unique(evs, i);
}

/// Redo then undo: committing the redo of the event that a redo targets
/// makes that same event the undo target, and committing its undo puts the
/// cursor back where it stood, when the redo target was at the cursor.
pub proof fn law_redo_then_undo(evs: Seq<HistoryEvent>, cursor: int)
    requires
        0 <= cursor <= evs.len(),
        unique_ids(evs),
        first_app_from(evs, cursor) >= 0,
    ensures
        ({
            let i = first_app_from(evs, cursor);
            let after_redo = position_of(evs, evs[i].id@) + 1;
            &&& after_redo == i + 1
            &&& last_app_before(evs, after_redo) == i
            &&& position_of(evs, evs[last_app_before(evs, after_redo)].id@) == i
            &&& i == cursor ==> position_of(evs, evs[last_app_before(evs, after_redo)].id@) == cursor
        }),
{
    lemma_first_app_from(evs, cursor);
    let i = first_app_from(evs, cursor);
    lemma_position_unique(evs, i);
}

proof fn lemma_last_app_before(evs: Seq<HistoryEvent>, i: int)
    requires
        0 <= i <= evs.len(),
    ensures
        last_app_before(evs, i) < i,
        last_app_before(evs, i) >= 0 ==> !(evs[last_app_before(evs, i)].action is ExternalEdit),
    decreases i,
{
    if i > 0 && evs[i - 1].action is ExternalEdit {
        lemma_last_app_before(evs, i - 1);
    }
}

proof fn lemma_first_app_from(evs: Seq<HistoryEvent>, i: int)
    requires
        0 <= i <= evs.len(),
    ensures
        first_app_from(evs, i) == -1 || i <= first_app_from(evs, i) < evs.len(),
        first_app_from(evs, i) >= 0 ==> !(evs[first_app_from(evs, i)].action is ExternalEdit),
    decreases evs.len() - i,
{
    if i < evs.len() && evs[i].action is ExternalEdit {
        lemma_first_app_from(evs, i + 1);
    }
}

} // verus!
