//! The task-line and heading grammar of the Markdown files.
//!
//! A task line is `^(\s*)[-*+]\s+\[([ xX])\]\s+(.+?)\s*$` (white space is
//! Unicode white space, `.` is any character but a line feed); a heading is
//! `^\s{0,3}(#{1,6})\s+(.+?)\s*$`.

use vstd::prelude::*;
use crate::text::{chars_of, is_ws, lemma_ws_end, lemma_ws_start_back, line_of_piece, lines, pieces, skip_ws, skip_ws_back, split_pieces, string_of, strip_eol, views, ws_end, ws_start_back};
use crate::types::{short_id, short_id_of, Quadrant, Task};

verus! {

/// One parsed task line.
pub struct ParsedTask {
    /// Number of characters of leading white space.
    pub indent: usize,
    /// Whether the checkbox holds `x` or `X`.
    pub completed: bool,
    /// The task text, without the white space around it.
    pub text: String,
}

pub open spec fn is_bullet(c: char) -> bool {
    c == '-' || c == '*' || c == '+'
}

pub open spec fn is_mark(c: char) -> bool {
    c == ' ' || c == 'x' || c == 'X'
}

/// The greatest index `j` with `1 <= j <= i` whose character is not a line feed, or -1.
pub open spec fn last_plain_at_or_before(r: Seq<char>, i: int) -> int
    decreases i,
{
    if i < 1 {
        -1
    } else if r[i] != '\n' {
        i
    } else {
        last_plain_at_or_before(r, i - 1)
    }
}

/// What `\s+(.+?)\s*$` captures in its group when matched against the whole of `r`.
///
/// The white-space run is taken greedily and the text lazily: the text is
/// `r` without its leading and trailing white space, and has no line feed.
/// When `r` is all white space the text is the last character that is not a
/// line feed and is not the first character.
pub open spec fn spec_tail_text(r: Seq<char>) -> Option<Seq<char>> {
    let k = ws_end(r, 0);
    if k == 0 {
        None
    } else if k < r.len() {
        let e = ws_start_back(r, r.len() as int);
        if forall|i: int| k <= i < e ==> r[i] != '\n' {
            Some(r.subrange(k, e))
        } else {
            None
        }
    } else {
        let j = last_plain_at_or_before(r, r.len() - 1);
        if j >= 1 {
            Some(seq![r[j]])
        } else {
            None
        }
    }
}

/// Indent, completion and text of a task line, or `None` when `s` is no task line.
pub open spec fn spec_parse_line(s: Seq<char>) -> Option<(int, bool, Seq<char>)> {
    let a = ws_end(s, 0);
    if a < s.len() && is_bullet(s[a]) {
        let p = ws_end(s, a + 1);
        if p > a + 1 && p + 2 < s.len() && s[p] == '[' && is_mark(s[p + 1]) && s[p + 2] == ']' {
            match spec_tail_text(s.subrange(p + 3, s.len() as int)) {
                Some(t) => Some((a, s[p + 1] != ' ', t)),
                None => None,
            }
        } else {
            None
        }
    } else {
        None
    }
}

/// Position of the checkbox's `[` in a task line (meaningful when `spec_parse_line(s)` is `Some`).
pub open spec fn spec_bracket_pos(s: Seq<char>) -> int {
    ws_end(s, ws_end(s, 0) + 1)
}

pub open spec fn parsed_view(r: Option<ParsedTask>) -> Option<(int, bool, Seq<char>)> {
    match r {
        Some(p) => Some((p.indent as int, p.completed, p.text@)),
        None => None,
    }
}

/// A copy of `cs[from..]`.
pub fn tail_of(cs: &Vec<char>, from: usize) -> (out: Vec<char>)
    requires
        from <= cs@.len(),
    ensures
        out@ == cs@.subrange(from as int, cs@.len() as int),
{
    let mut out: Vec<char> = Vec::new();
    let mut i = from;
    while i < cs.len()
        invariant
            from <= i <= cs@.len(),
            out@ == cs@.subrange(from as int, i as int),
        decreases cs@.len() - i,
    {
        out.push(cs[i]);
        i += 1;
    }
    out
}

/// The text captured by `\s+(.+?)\s*$` over all of `r`.
pub fn tail_text(r: &Vec<char>) -> (res: Option<String>)
    ensures
        match res {
            Some(t) => spec_tail_text(r@) == Some(t@),
            None => spec_tail_text(r@) is None,
        },
{
    proof {
        lemma_ws_end(r@, 0);
    }
    let k = skip_ws(r, 0);
    if k == 0 {
        return None;
    }
    if k < r.len() {
        let e = skip_ws_back(r, r.len());
        proof {
            lemma_ws_start_back(r@, r@.len() as int);
        }
        let mut i = k;
        while i < e
            invariant
                k <= i <= e <= r@.len(),
                k == ws_end(r@, 0),
                0 < k < r@.len(),
                e == ws_start_back(r@, r@.len() as int),
                forall|m: int| k <= m < i ==> r@[m] != '\n',
            decreases e - i,
        {
            if r[i] == '\n' {
                assert(r@[i as int] == '\n');
                return None;
            }
            i += 1;
        }
        Some(string_of(r, k, e))
    } else {
        let mut j = r.len() - 1;
        while j >= 1 && r[j] == '\n'
            invariant
                j < r@.len(),
                last_plain_at_or_before(r@, r@.len() - 1) == last_plain_at_or_before(r@, j as int),
            decreases j,
        {
            j -= 1;
        }
        if j >= 1 {
            Some(string_of(r, j, j + 1))
        } else {
            None
        }
    }
}

/// Parse one line as a task line: `^(\s*)[-*+]\s+\[([ xX])\]\s+(.+?)\s*$`.
pub fn parse_line(line: &str) -> (res: Option<ParsedTask>)
    ensures
        parsed_view(res) == spec_parse_line(line@),
{
    let cs = chars_of(line);
    parse_chars(&cs)
}

/// `parse_line` over the characters of a line.
pub fn parse_chars(cs: &Vec<char>) -> (res: Option<ParsedTask>)
    ensures
        parsed_view(res) == spec_parse_line(cs@),
{
    let a = skip_ws(cs, 0);
    if !(a < cs.len() && (cs[a] == '-' || cs[a] == '*' || cs[a] == '+')) {
        return None;
    }
    let p = skip_ws(cs, a + 1);
    if !(p > a + 1 && cs.len() - p > 2 && cs[p] == '[' && (cs[p + 1] == ' ' || cs[p + 1] == 'x'
        || cs[p + 1] == 'X') && cs[p + 2] == ']') {
        return None;
    }
    let r = tail_of(cs, p + 3);
    match tail_text(&r) {
        Some(t) => Some(ParsedTask { indent: a, completed: cs[p + 1] != ' ', text: t }),
        None => None,
    }
}


/// End of the run of `#` characters starting at `i`.
pub open spec fn hash_end(s: Seq<char>, i: int) -> int
    decreases s.len() - i,
{
    if 0 <= i < s.len() && s[i] == '#' {
        hash_end(s, i + 1)
    } else {
        i
    }
}

pub proof fn lemma_hash_end(s: Seq<char>, i: int)
    requires
        0 <= i <= s.len(),
    ensures
        i <= hash_end(s, i) <= s.len(),
        forall|k: int| i <= k < hash_end(s, i) ==> #[trigger] s[k] == '#',
        hash_end(s, i) < s.len() ==> s[hash_end(s, i)] != '#',
    decreases s.len() - i,
{
    if i < s.len() && s[i] == '#' {
        lemma_hash_end(s, i + 1);
    }
}

/// Level and text of a heading line, `^\s{0,3}(#{1,6})\s+(.+?)\s*$`, or `None`.
pub open spec fn spec_heading(s: Seq<char>) -> Option<(int, Seq<char>)> {
    let a = ws_end(s, 0);
    if a <= 3 {
        let h = hash_end(s, a);
        if 1 <= h - a <= 6 {
            match spec_tail_text(s.subrange(h, s.len() as int)) {
                Some(t) => Some((h - a, t)),
                None => None,
            }
        } else {
            None
        }
    } else {
        None
    }
}

/// The quadrant a heading text names by its coloured circle; the red,
/// yellow, orange, green order decides when several are present.
pub open spec fn spec_detect_quadrant(t: Seq<char>) -> Option<Quadrant> {
    if t.contains('\u{1F534}') {
        Some(Quadrant::UrgentImportant)
    } else if t.contains('\u{1F7E1}') {
        Some(Quadrant::NotUrgentImportant)
    } else if t.contains('\u{1F7E0}') {
        Some(Quadrant::UrgentNotImportant)
    } else if t.contains('\u{1F7E2}') {
        Some(Quadrant::NotUrgentNotImportant)
    } else {
        None
    }
}

/// `None` for a line that is no heading, otherwise the quadrant its text names, if any.
pub open spec fn spec_heading_quadrant(s: Seq<char>) -> Option<Option<Quadrant>> {
    match spec_heading(s) {
        Some((_, t)) => Some(spec_detect_quadrant(t)),
        None => None,
    }
}

/// The quadrant named by a heading text: 🔴, then 🟡, 🟠, 🟢.
pub fn detect_quadrant(text: &str) -> (q: Option<Quadrant>)
    ensures
        q == spec_detect_quadrant(text@),
{
    let cs = chars_of(text);
    detect_quadrant_chars(&cs)
}

fn detect_quadrant_chars(cs: &Vec<char>) -> (q: Option<Quadrant>)
    ensures
        q == spec_detect_quadrant(cs@),
{
    if crate::text::contains_char(cs, '\u{1F534}') {
        Some(Quadrant::UrgentImportant)
    } else if crate::text::contains_char(cs, '\u{1F7E1}') {
        Some(Quadrant::NotUrgentImportant)
    } else if crate::text::contains_char(cs, '\u{1F7E0}') {
        Some(Quadrant::UrgentNotImportant)
    } else if crate::text::contains_char(cs, '\u{1F7E2}') {
        Some(Quadrant::NotUrgentNotImportant)
    } else {
        None
    }
}

/// Level and text of a heading line.
pub fn heading(cs: &Vec<char>) -> (res: Option<(usize, String)>)
    ensures
        match res {
            Some((l, t)) => spec_heading(cs@) == Some((l as int, t@)),
            None => spec_heading(cs@) is None,
        },
{
    let a = skip_ws(cs, 0);
    if a > 3 {
        return None;
    }
    let mut h = a;
    while h < cs.len() && cs[h] == '#'
        invariant
            a <= h <= cs@.len(),
            hash_end(cs@, a as int) == hash_end(cs@, h as int),
        decreases cs@.len() - h,
    {
        h += 1;
    }
    if h - a < 1 || h - a > 6 {
        return None;
    }
    let r = tail_of(cs, h);
    match tail_text(&r) {
        Some(t) => Some((h - a, t)),
        None => None,
    }
}

/// `None` for a line that is no heading, otherwise the quadrant its text names, if any.
pub fn heading_quadrant(cs: &Vec<char>) -> (res: Option<Option<Quadrant>>)
    ensures
        res == spec_heading_quadrant(cs@),
{
    match heading(cs) {
        Some((_, t)) => Some(detect_quadrant(t.as_str())),
        None => None,
    }
}


/// The decimal digit character of `d < 10`.
pub open spec fn digit_char(d: int) -> char {
    (48 + d) as char
}

/// The decimal representation of `n`, without leading zeros.
pub open spec fn spec_decimal(n: nat) -> Seq<char>
    decreases n,
{
    if n < 10 {
        seq![digit_char(n as int)]
    } else {
        spec_decimal(n / 10).push(digit_char((n % 10) as int))
    }
}

fn digit(d: usize) -> (c: char)
    requires
        d < 10,
    ensures
        c == digit_char(d as int),
{
    match d {
        0 => '0',
        1 => '1',
        2 => '2',
        3 => '3',
        4 => '4',
        5 => '5',
        6 => '6',
        7 => '7',
        8 => '8',
        _ => '9',
    }
}

/// `n` written in decimal.
pub fn decimal(n: usize) -> (s: String)
    ensures
        s@ == spec_decimal(n as nat),
    decreases n,
{
    if n < 10 {
        let mut s = String::new();
        s.push(digit(n));
        s
    } else {
        let mut s = decimal(n / 10);
        s.push(digit(n % 10));
        s
    }
}

/// The id of the task on line `line` of the file at `abs`: the short id of `abs:line`.
pub open spec fn spec_task_id(abs: Seq<char>, line: nat) -> Seq<char> {
    short_id(abs + seq![':'] + spec_decimal(line))
}

/// The id of the task on line `line` of the file at `abs`.
pub fn task_id(abs: &str, line: usize) -> (id: String)
    ensures
        id@ == spec_task_id(abs@, line as nat),
{
    let mut s = String::from_str(abs);
    s.push(':');
    let d = decimal(line);
    let dc = chars_of(d.as_str());
    crate::text::push_all(&mut s, &dc);
    proof {
        assert(s@ =~= abs@ + seq![':'] + spec_decimal(line as nat));
    }
    short_id_of(s.as_str())
}

/// What a file says of one task, apart from where the file is.
pub struct TaskEntry {
    /// 1-based line number.
    pub line: nat,
    pub indent: nat,
    pub completed: bool,
    pub text: Seq<char>,
    pub quadrant: Option<Quadrant>,
}

/// The quadrant in force after the first `n` lines: the one named by the
/// last heading among them that names one, or none.
pub open spec fn quadrant_after(ls: Seq<Seq<char>>, n: int) -> Option<Quadrant>
    decreases n,
{
    if n <= 0 {
        None
    } else {
        match spec_heading_quadrant(ls[n - 1]) {
            Some(Some(q)) => Some(q),
            _ => quadrant_after(ls, n - 1),
        }
    }
}

/// The tasks on the first `n` lines, in order. A heading line is never a task.
pub open spec fn task_entries(ls: Seq<Seq<char>>, n: int) -> Seq<TaskEntry>
    decreases n,
{
    if n <= 0 {
        Seq::empty()
    } else {
        let prev = task_entries(ls, n - 1);
        if spec_heading(ls[n - 1]) is Some {
            prev
        } else {
            match spec_parse_line(ls[n - 1]) {
                Some((ind, done, t)) => prev.push(
                    TaskEntry {
                        line: n as nat,
                        indent: ind as nat,
                        completed: done,
                        text: t,
                        quadrant: quadrant_after(ls, n - 1),
                    },
                ),
                None => prev,
            }
        }
    }
}

/// The tasks of a whole text.
pub open spec fn text_entries(text: Seq<char>) -> Seq<TaskEntry> {
    task_entries(lines(text), lines(text).len() as int)
}

/// `t` is the task `e` of the file at `abs`, in the source `sid`.
pub open spec fn task_is(t: Task, e: TaskEntry, abs: Seq<char>, sid: Seq<char>) -> bool {
    &&& t.id@ == spec_task_id(abs, e.line)
    &&& t.text@ == e.text
    &&& t.completed == e.completed
    &&& t.source_file@ == abs
    &&& t.line_number == e.line
    &&& t.indent == e.indent
    &&& t.source_id@ == sid
    &&& t.quadrant == e.quadrant
}

/// `ts` are exactly the tasks `es` of the file at `abs`, in order.
pub open spec fn tasks_are(ts: Seq<Task>, es: Seq<TaskEntry>, abs: Seq<char>, sid: Seq<char>) -> bool {
    &&& ts.len() == es.len()
    &&& forall|i: int| 0 <= i < ts.len() ==> task_is(#[trigger] ts[i], es[i], abs, sid)
}

proof fn lemma_task_entries_bound(ls: Seq<Seq<char>>, n: int)
    requires
        0 <= n <= ls.len(),
    ensures
        task_entries(ls, n).len() <= n,
        forall|i: int| 0 <= i < task_entries(ls, n).len() ==> 1 <= #[trigger] task_entries(ls, n)[i].line <= n,
    decreases n,
{
    if n > 0 {
        lemma_task_entries_bound(ls, n - 1);
    }
}

/// The tasks of a text: every task line with its 1-based number and the
/// quadrant of the last heading above it that names one. `abs` is the file's
/// path, `source_id` the source it belongs to.
pub fn parse_content(text: &str, abs: &str, source_id: &str) -> (tasks: Vec<Task>)
    ensures
        tasks_are(tasks@, text_entries(text@), abs@, source_id@),
{
    let cs = chars_of(text);
    let ps = split_pieces(&cs);
    let ghost ls = lines(text@);
    proof {
        assert(ls.len() == ps@.len());
        assert forall|k: int| 0 <= k < ls.len() implies #[trigger] ls[k] == strip_eol(ps@[k]@) by {
            assert(views(ps@)[k] == ps@[k]@);
        }
    }
    let mut tasks: Vec<Task> = Vec::new();
    let mut current: Option<Quadrant> = None;
    let mut i: usize = 0;
    while i < ps.len()
        invariant
            i <= ps@.len() == ls.len(),
            ls == lines(text@),
            forall|k: int| 0 <= k < ls.len() ==> #[trigger] ls[k] == strip_eol(ps@[k]@),
            current == quadrant_after(ls, i as int),
            tasks_are(tasks@, task_entries(ls, i as int), abs@, source_id@),
        decreases ps@.len() - i,
    {
        let line = line_of_piece(&ps[i]);
        assert(line@ == ls[i as int]);
        let ghost prev = tasks@;
        match heading_quadrant(&line) {
            Some(named) => {
                if let Some(q) = named {
                    current = Some(q);
                }
            },
            None => {
                match parse_chars(&line) {
                    Some(p) => {
                        let id = task_id(abs, i + 1);
                        tasks.push(
                            Task {
                                id,
                                text: p.text,
                                completed: p.completed,
                                source_file: String::from_str(abs),
                                line_number: i + 1,
                                indent: p.indent,
                                source_id: String::from_str(source_id),
                                quadrant: current,
                            },
                        );
                        proof {
                            let es = task_entries(ls, i + 1);
                            assert(es == task_entries(ls, i as int).push(es.last()));
                            assert forall|k: int| 0 <= k < tasks@.len() implies task_is(#[trigger] tasks@[k], es[k], abs@, source_id@) by {
                                if k < prev.len() {
                                    assert(tasks@[k] == prev[k]);
                                }
                            }
                        }
                    },
                    None => {},
                }
            },
        }
        i += 1;
    }
    tasks
}

/// The text of a byte sequence decoded as UTF-8, invalid sequences replaced.
pub uninterp spec fn lossy_utf8(bytes: Seq<u8>) -> Seq<char>;

/// `String::from_utf8_lossy`. Its documentation: the bytes are decoded as
/// UTF-8, each invalid sequence replaced by U+FFFD; so the text is a
/// function of the bytes (`lossy_utf8`), and valid UTF-8 decodes as it is.
#[verifier::external_body]
fn decode_lossy(bytes: &[u8]) -> (s: String)
    ensures
        s@ == lossy_utf8(bytes@),
        vstd::utf8::valid_utf8(bytes@) ==> s@ == vstd::utf8::decode_utf8(bytes@),
{
    String::from_utf8_lossy(bytes).into_owned()
}

/// The UTF-8 byte order mark.
pub open spec fn has_bom(raw: Seq<u8>) -> bool {
    raw.len() >= 3 && raw[0] == 0xEF && raw[1] == 0xBB && raw[2] == 0xBF
}

/// The bytes of a file without a leading byte order mark.
pub open spec fn without_bom(raw: Seq<u8>) -> Seq<u8> {
    if has_bom(raw) {
        raw.skip(3)
    } else {
        raw
    }
}

/// The text of a file's bytes: a leading byte order mark dropped, then
/// decoded as UTF-8 with invalid sequences replaced.
pub fn file_text(raw: &[u8]) -> (text: String)
    ensures
        text@ == lossy_utf8(without_bom(raw@)),
        vstd::utf8::valid_utf8(without_bom(raw@)) ==> text@ == vstd::utf8::decode_utf8(without_bom(raw@)),
{
    let start: usize = if raw.len() >= 3 && raw[0] == 0xEF && raw[1] == 0xBB && raw[2] == 0xBF {
        3
    } else {
        0
    };
    let mut body: Vec<u8> = Vec::new();
    let mut i = start;
    while i < raw.len()
        invariant
            start <= i <= raw@.len(),
            start == (if has_bom(raw@) { 3int } else { 0int }),
            body@ == raw@.subrange(start as int, i as int),
        decreases raw@.len() - i,
    {
        body.push(raw[i]);
        i += 1;
    }
    proof {
        assert(body@ =~= without_bom(raw@));
    }
    decode_lossy(body.as_slice())
}

/// The tasks of a file from its bytes (see `file_text` and `parse_content`).
pub fn parse_bytes(raw: &[u8], abs: &str, source_id: &str) -> (tasks: Vec<Task>)
    ensures
        tasks_are(tasks@, text_entries(lossy_utf8(without_bom(raw@))), abs@, source_id@),
        vstd::utf8::valid_utf8(without_bom(raw@)) ==> tasks_are(
            tasks@,
            text_entries(vstd::utf8::decode_utf8(without_bom(raw@))),
            abs@,
            source_id@,
        ),
{
    let text = file_text(raw);
    parse_content(text.as_str(), abs, source_id)
}

} // verus!
