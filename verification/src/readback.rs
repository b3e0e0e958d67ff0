//! What the task list reads back after the file edits: toggling a task
//! flips exactly that task, and an appended task is read as the last one.

use vstd::prelude::*;
use crate::parser::{spec_detect_quadrant, last_plain_at_or_before, quadrant_after, spec_heading, spec_heading_quadrant, spec_parse_line, spec_tail_text, task_entries, text_entries, TaskEntry};
use crate::text::body_end;
use crate::storage::{lemma_toggle_pieces, lemma_toggled_piece, piece_body, spec_toggle, toggled_piece};
use crate::text::{lemma_trim_ends, closed_piece, is_ws, lemma_eol_start, lemma_pieces_of_flatten, lemma_pieces_shape, lemma_ws_end, lemma_ws_start_back, lines, pieces, spec_trim, strip_eol, well_shaped, ws_end, ws_start_back};
use crate::types::Quadrant;
use crate::storage::{heading_level, is_section_stop, offset, section_end, spec_insert_task_at, spec_insertion_point, ends_with_blank_line, first_quadrant_heading, spec_append_to_quadrant, spec_quadrant_label, spec_new_section, indent_end, lemma_indent_end, lemma_space_end, spec_append_task, spec_prefix_len, spec_replace_text, space_end};

verus! {

proof fn lemma_wsb_prefix(r: Seq<char>, x: Seq<char>, e: int)
    requires
        0 <= e <= r.len(),
    ensures
        ws_start_back(r + x, e) == ws_start_back(r, e),
    decreases e,
{
    if e > 0 {
        assert((r + x)[e - 1] == r[e - 1]);
        lemma_wsb_prefix(r, x, e - 1);
    }
}

proof fn lemma_wsb_suffix(r: Seq<char>, x: Seq<char>, e: int)
    requires
        r.len() <= e <= r.len() + x.len(),
        forall|j: int| 0 <= j < x.len() ==> is_ws(#[trigger] x[j]),
    ensures
        ws_start_back(r + x, e) == ws_start_back(r, r.len() as int),
    decreases e,
{
    if e > r.len() {
        assert((r + x)[e - 1] == x[e - 1 - r.len()]);
        lemma_wsb_suffix(r, x, e - 1);
    } else {
        lemma_wsb_prefix(r, x, e);
    }
}

proof fn lemma_ws_end_prefix(r: Seq<char>, x: Seq<char>, i: int, k: int)
    requires
        0 <= i <= k < r.len(),
        ws_end(r, i) == k,
    ensures
        ws_end(r + x, i) == k,
    decreases k - i,
{
    lemma_ws_end(r, i);
    if i < k {
        assert(is_ws(r[i]));
        assert((r + x)[i] == r[i]);
        lemma_ws_end_prefix(r, x, i + 1, k);
    } else {
        assert((r + x)[k] == r[k]);
    }
}

proof fn lemma_last_plain(r: Seq<char>, i: int)
    requires
        i < r.len(),
    ensures
        last_plain_at_or_before(r, i) == -1 || 1 <= last_plain_at_or_before(r, i) <= i,
    decreases i,
{
    if i >= 1 && r[i] == '\n' {
        lemma_last_plain(r, i - 1);
    }
}

/// White space other than line feeds after a task text leaves what the
/// pattern captures unchanged, unless the text is a lone white-space character.
proof fn lemma_tail_text_extend(r: Seq<char>, x: Seq<char>)
    requires
        spec_tail_text(r) matches Some(t) && !is_ws(t[0]),
        forall|j: int| 0 <= j < x.len() ==> is_ws(#[trigger] x[j]) && x[j] != '\n',
    ensures
        spec_tail_text(r + x) == spec_tail_text(r),
{
    let k = ws_end(r, 0);
    lemma_ws_end(r, 0);
    if k >= r.len() {
        let j = last_plain_at_or_before(r, r.len() - 1);
        lemma_last_plain(r, r.len() - 1);
        assert(is_ws(r[j]));
        assert(false);
    }
    lemma_ws_end_prefix(r, x, 0, k);
    lemma_wsb_suffix(r, x, (r.len() + x.len()) as int);
    let e = ws_start_back(r, r.len() as int);
    lemma_ws_start_back(r, r.len() as int);
    assert((r + x).subrange(k, e) =~= r.subrange(k, e));
}

/// Trailing white space other than line feeds keeps a task line's reading,
/// when its text does not start with white space.
pub proof fn lemma_parse_extend(s: Seq<char>, x: Seq<char>)
    requires
        spec_parse_line(s) matches Some((_, _, t)) && !is_ws(t[0]),
        forall|j: int| 0 <= j < x.len() ==> is_ws(#[trigger] x[j]) && x[j] != '\n',
    ensures
        spec_parse_line(s + x) == spec_parse_line(s),
{
    let a = ws_end(s, 0);
    lemma_ws_end(s, 0);
    lemma_ws_end_prefix(s, x, 0, a);
    let p = ws_end(s, a + 1);
    lemma_ws_end(s, a + 1);
    lemma_ws_end_prefix(s, x, a + 1, p);
    let sx = s + x;
    assert(sx[a] == s[a]);
    assert(sx[p] == s[p] && sx[p + 1] == s[p + 1] && sx[p + 2] == s[p + 2]);
    let r = s.subrange(p + 3, s.len() as int);
    assert(sx.subrange(p + 3, sx.len() as int) =~= r + x);
    lemma_tail_text_extend(r, x);
}

/// The line `str::lines` gives for a piece is the piece's body followed by
/// carriage returns only.
proof fn lemma_line_of_piece(piece: Seq<char>)
    requires
        forall|j: int| 0 <= j < piece.len() - 1 ==> #[trigger] piece[j] != '\n',
    ensures
        body_end(piece) <= strip_eol(piece).len(),
        strip_eol(piece) == piece_body(piece) + strip_eol(piece).skip(body_end(piece)),
        forall|j: int| body_end(piece) <= j < strip_eol(piece).len() ==> #[trigger] strip_eol(piece)[j] == '\r',
        strip_eol(piece) == piece.take(strip_eol(piece).len() as int),
{
    let e = body_end(piece);
    lemma_eol_start(piece, piece.len() as int);
    let l = strip_eol(piece);
    let n = piece.len();
    if n > 0 && piece.last() == '\n' {
        let q = piece.drop_last();
        if q.len() > 0 && q.last() == '\r' {
            assert(e <= n - 2) by {
                if e > n - 2 {
                    assert(e == n - 1 || e == n);
                    assert(crate::text::is_eol(piece[n - 2]));
                }
            }
            assert(l =~= piece.take(n - 2));
        } else {
            assert(l =~= piece.take(n - 1));
        }
    } else {
        assert(l =~= piece.take(n as int));
    }
    assert forall|j: int| e <= j < l.len() implies #[trigger] l[j] == '\r' by {
        assert(l[j] == piece[j]);
        assert(crate::text::is_eol(piece[j]));
        if j < n - 1 {
            assert(piece[j] != '\n');
        } else {
            assert(piece.last() != '\n');
        }
    }
    assert(l =~= piece_body(piece) + l.skip(e));
}

/// Changing a character that is no line ending, to another such character,
/// changes the line at the same place.
proof fn lemma_strip_eol_update(p: Seq<char>, j: int, m: char)
    requires
        0 <= j < strip_eol(p).len(),
        m != '\n' && m != '\r',
        p[j] != '\n' && p[j] != '\r',
    ensures
        strip_eol(p.update(j, m)) == strip_eol(p).update(j, m),
{
    let q = p.update(j, m);
    assert(q.len() == p.len());
    if p.len() > 0 {
        assert((q.last() == '\n') == (p.last() == '\n'));
        if p.len() > 1 {
            assert((q[p.len() - 2] == '\r') == (p[p.len() - 2] == '\r'));
        }
    }
    assert(strip_eol(q) =~= strip_eol(p).update(j, m));
}

/// A task line is no heading.
proof fn lemma_task_no_heading(s: Seq<char>)
    requires
        spec_parse_line(s) is Some,
    ensures
        spec_heading(s) is None,
        spec_heading_quadrant(s) is None,
{
    lemma_ws_end(s, 0);
}

/// The entry of a task with its completion flipped.
pub open spec fn flipped(e: TaskEntry) -> TaskEntry {
    TaskEntry { line: e.line, indent: e.indent, completed: !e.completed, text: e.text, quadrant: e.quadrant }
}

/// The entry of a task read again with completion `d` and text `t`.
pub open spec fn reread(e: TaskEntry, d: bool, t: Seq<char>) -> TaskEntry {
    TaskEntry { line: e.line, indent: e.indent, completed: d, text: t, quadrant: e.quadrant }
}

/// Replacing the task line `i` by another task line with the same indent
/// changes that task's entry (completion and text) and nothing else.
proof fn lemma_entries_replace(ls: Seq<Seq<char>>, l2: Seq<char>, i: int, m: int)
    requires
        0 <= i < ls.len(),
        0 <= m <= ls.len(),
        spec_parse_line(ls[i]) is Some,
        spec_parse_line(l2) is Some,
        spec_parse_line(l2).unwrap().0 == spec_parse_line(ls[i]).unwrap().0,
    ensures
        quadrant_after(ls.update(i, l2), m) == quadrant_after(ls, m),
        m <= i ==> task_entries(ls.update(i, l2), m) == task_entries(ls, m),
        m > i ==> {
            let k = task_entries(ls, i).len();
            let d = spec_parse_line(l2).unwrap().1;
            let t = spec_parse_line(l2).unwrap().2;
            &&& k < task_entries(ls, m).len()
            &&& task_entries(ls, m)[k as int].line == i + 1
            &&& task_entries(ls, m)[k as int].indent == spec_parse_line(ls[i]).unwrap().0
            &&& task_entries(ls, m)[k as int].completed == spec_parse_line(ls[i]).unwrap().1
            &&& task_entries(ls, m)[k as int].text == spec_parse_line(ls[i]).unwrap().2
            &&& task_entries(ls.update(i, l2), m) == task_entries(ls, m).update(k as int, reread(task_entries(ls, m)[k as int], d, t))
        },
    decreases m,
{
    let ls2 = ls.update(i, l2);
    lemma_task_no_heading(ls[i]);
    lemma_task_no_heading(l2);
    let d = spec_parse_line(l2).unwrap().1;
    let t = spec_parse_line(l2).unwrap().2;
    if m > 0 {
        lemma_entries_replace(ls, l2, i, m - 1);
        if m - 1 != i {
            assert(ls2[m - 1] == ls[m - 1]);
        }
        let prev = task_entries(ls, m - 1);
        let prev2 = task_entries(ls2, m - 1);
        if m - 1 > i {
            let k = task_entries(ls, i).len();
            let cur = task_entries(ls, m);
            if cur.len() > prev.len() {
                assert(cur == prev.push(cur.last()));
                assert(task_entries(ls2, m) == prev2.push(cur.last()));
                assert(task_entries(ls2, m) =~= cur.update(k as int, reread(cur[k as int], d, t)));
            } else {
                assert(cur == prev);
            }
        } else if m - 1 == i {
            assert(prev2 == prev);
            let cur = task_entries(ls, m);
            assert(cur == prev.push(cur.last()));
            assert(task_entries(ls2, m) =~= cur.update(prev.len() as int, reread(cur[prev.len() as int], d, t)));
        }
    }
}

proof fn lemma_tail_text_extend_some(r: Seq<char>, x: Seq<char>)
    requires
        spec_tail_text(r) is Some,
        forall|j: int| 0 <= j < x.len() ==> is_ws(#[trigger] x[j]) && x[j] != '\n',
    ensures
        spec_tail_text(r + x) is Some,
{
    let k = ws_end(r, 0);
    lemma_ws_end(r, 0);
    if k < r.len() {
        let t = spec_tail_text(r).unwrap();
        lemma_ws_start_back(r, r.len() as int);
        let e = ws_start_back(r, r.len() as int);
        if e <= k {
            assert(is_ws(r[k]));
        }
        assert(t[0] == r[k]);
        lemma_tail_text_extend(r, x);
    } else {
        let rx = r + x;
        let j = last_plain_at_or_before(r, r.len() - 1);
        lemma_last_plain(r, r.len() - 1);
        assert forall|m: int| 0 <= m < rx.len() implies is_ws(#[trigger] rx[m]) by {
            if m < r.len() {
                assert(rx[m] == r[m]);
            } else {
                assert(rx[m] == x[m - r.len()]);
            }
        }
        lemma_ws_end_all(rx, 0);
        assert(rx.take(r.len() as int) =~= r);
        lemma_last_plain_ge(rx, r.len() - 1, rx.len() - 1, j);
    }
}

proof fn lemma_ws_end_all(s: Seq<char>, i: int)
    requires
        0 <= i <= s.len(),
        forall|m: int| 0 <= m < s.len() ==> is_ws(#[trigger] s[m]),
    ensures
        ws_end(s, i) == s.len(),
    decreases s.len() - i,
{
    if i < s.len() {
        lemma_ws_end_all(s, i + 1);
    }
}

proof fn lemma_last_plain_ge(s: Seq<char>, i: int, i2: int, j: int)
    requires
        0 <= i <= i2 < s.len(),
        j == last_plain_at_or_before(s.take(i + 1), i),
        j >= 1,
        forall|m: int| i < m <= i2 ==> #[trigger] s[m] != '\n',
    ensures
        last_plain_at_or_before(s, i2) >= 1,
    decreases i2,
{
    if i2 > i {
        assert(s[i2] != '\n');
    } else {
        lemma_last_plain_take(s, i, i);
    }
}

proof fn lemma_last_plain_take(s: Seq<char>, i: int, m: int)
    requires
        0 <= m <= i < s.len(),
    ensures
        last_plain_at_or_before(s.take(i + 1), m) == last_plain_at_or_before(s, m),
    decreases m,
{
    assert(s.take(i + 1)[m] == s[m]);
    if m >= 1 {
        lemma_last_plain_take(s, i, m - 1);
    }
}

/// Trailing white space other than line feeds keeps a task line a task
/// line, with the same indent, checkbox position and mark.
proof fn lemma_parse_extend_some(s: Seq<char>, x: Seq<char>)
    requires
        spec_parse_line(s) is Some,
        forall|j: int| 0 <= j < x.len() ==> is_ws(#[trigger] x[j]) && x[j] != '\n',
    ensures
        spec_parse_line(s + x) is Some,
        spec_parse_line(s + x).unwrap().0 == spec_parse_line(s).unwrap().0,
        spec_parse_line(s + x).unwrap().1 == spec_parse_line(s).unwrap().1,
        crate::parser::spec_bracket_pos(s + x) == crate::parser::spec_bracket_pos(s),
{
    let a = ws_end(s, 0);
    lemma_ws_end(s, 0);
    lemma_ws_end_prefix(s, x, 0, a);
    let p = ws_end(s, a + 1);
    lemma_ws_end(s, a + 1);
    lemma_ws_end_prefix(s, x, a + 1, p);
    let sx = s + x;
    assert(sx[a] == s[a]);
    assert(sx[p] == s[p] && sx[p + 1] == s[p + 1] && sx[p + 2] == s[p + 2]);
    let r = s.subrange(p + 3, s.len() as int);
    assert(sx.subrange(p + 3, sx.len() as int) =~= r + x);
    lemma_tail_text_extend_some(r, x);
}

/// The line of a task's piece and of its toggled piece read as the same
/// task with opposite completion.
proof fn lemma_toggle_line(piece: Seq<char>)
    requires
        spec_parse_line(piece_body(piece)) is Some,
        forall|j: int| 0 <= j < piece.len() - 1 ==> #[trigger] piece[j] != '\n',
    ensures
        ({
            let l1 = strip_eol(piece);
            let l2 = strip_eol(toggled_piece(piece));
            &&& spec_parse_line(l1) is Some
            &&& spec_parse_line(l2) is Some
            &&& spec_parse_line(l2).unwrap().0 == spec_parse_line(l1).unwrap().0
            &&& spec_parse_line(l2).unwrap().1 == !spec_parse_line(l1).unwrap().1
            &&& spec_parse_line(l2).unwrap().2 == spec_parse_line(l1).unwrap().2
        }),
{
    lemma_toggled_piece(piece);
    lemma_line_of_piece(piece);
    let e = body_end(piece);
    let body = piece_body(piece);
    let b = crate::parser::spec_bracket_pos(body);
    let done = spec_parse_line(body).unwrap().1;
    let mk = if done { ' ' } else { 'x' };
    let tp = toggled_piece(piece);
    assert(tp =~= piece.update(b + 1, mk));
    let line = strip_eol(piece);
    let x = line.skip(e);
    assert(body[b + 1] == piece[b + 1]);
    assert(crate::parser::is_mark(body[b + 1])) by {
        lemma_ws_end(body, 0);
        lemma_ws_end(body, ws_end(body, 0) + 1);
    }
    lemma_strip_eol_update(piece, b + 1, mk);
    assert forall|j: int| 0 <= j < x.len() implies is_ws(#[trigger] x[j]) && x[j] != '\n' by {
        assert(x[j] == line[e + j]);
    }
    lemma_parse_extend_some(body, x);
    assert(line =~= body + x);
    crate::storage::lemma_mark_change(line, mk);
}

/// Toggling a task reads back as that task with its completion flipped,
/// every other task as it was.
pub proof fn law_toggle_read_back(c: Seq<char>, n: int)
    requires
        spec_toggle(c, n) is Some,
    ensures
        ({
            let es = text_entries(c);
            let k = task_entries(lines(c), n - 1).len();
            &&& k < es.len()
            &&& es[k as int].line == n
            &&& text_entries(spec_toggle(c, n).unwrap()) == es.update(k as int, flipped(es[k as int]))
        }),
{
    let ps = pieces(c);
    lemma_toggle_pieces(c, n);
    let i = n - 1;
    let piece = ps[i];
    assert forall|j: int| 0 <= j < piece.len() - 1 implies #[trigger] piece[j] != '\n' by {
        assert(ps[i][j] != '\n');
    }
    lemma_toggle_line(piece);
    let line2 = strip_eol(toggled_piece(piece));
    let c2 = spec_toggle(c, n).unwrap();
    let ls = lines(c);
    assert(ls[i] == strip_eol(piece));
    assert(lines(c2) =~= ls.update(i, line2));
    lemma_entries_replace(ls, line2, i, ls.len() as int);
    let k = task_entries(ls, i).len();
    let es = text_entries(c);
    assert(reread(es[k as int], !es[k as int].completed, es[k as int].text) == flipped(es[k as int]));
}

/// Splitting a text that ends a line, followed by one more whole line,
/// gives the text's pieces and then that line.
pub proof fn lemma_pieces_append(a: Seq<char>, b: Seq<char>)
    requires
        a.len() == 0 || a.last() == '\n',
        closed_piece(b),
    ensures
        pieces(a + b) == pieces(a).push(b),
{
    lemma_pieces_shape(a);
    let ps = pieces(a);
    let qs = ps.push(b);
    ps.lemma_flatten_push(b);
    if ps.len() > 0 {
        ps.drop_last().lemma_flatten_push(ps.last());
        assert(ps.drop_last().push(ps.last()) =~= ps);
        assert(ps.last().len() > 0);
        assert(a.last() == ps.last().last());
    }
    assert forall|k: int| 0 <= k < qs.len() implies (#[trigger] qs[k]).len() > 0 by {
        if k < ps.len() { assert(qs[k] == ps[k]); }
    }
    assert forall|k: int| 0 <= k < qs.len() - 1 implies (#[trigger] qs[k]).last() == '\n' by {
        assert(qs[k] == ps[k]);
    }
    assert forall|k: int, j: int| 0 <= k < qs.len() && 0 <= j < qs[k].len() - 1 implies #[trigger] qs[k][j] != '\n' by {
        if k < ps.len() { assert(qs[k] == ps[k]); }
    }
    assert(well_shaped(qs));
    lemma_pieces_of_flatten(qs);
}

/// Lines added after the first `m` do not change what those lines say.
proof fn lemma_entries_prefix(ls: Seq<Seq<char>>, l: Seq<char>, m: int)
    requires
        0 <= m <= ls.len(),
    ensures
        task_entries(ls.push(l), m) == task_entries(ls, m),
        quadrant_after(ls.push(l), m) == quadrant_after(ls, m),
    decreases m,
{
    if m > 0 {
        assert(ls.push(l)[m - 1] == ls[m - 1]);
        lemma_entries_prefix(ls, l, m - 1);
    }
}

/// `- [ ] T` reads as an open task with text `T` at indent 0.
proof fn lemma_new_task_line(t: Seq<char>)
    requires
        t.len() > 0,
        !is_ws(t[0]),
        !is_ws(t.last()),
        !t.contains('\n'),
    ensures
        spec_parse_line("- [ ] "@ + t) == Some((0int, false, t)),
        spec_heading("- [ ] "@ + t) is None,
{
    reveal_strlit("- [ ] ");
    let s = "- [ ] "@ + t;
    assert(s[0] == '-' && s[1] == ' ' && s[2] == '[' && s[3] == ' ' && s[4] == ']' && s[5] == ' ');
    assert(ws_end(s, 0) == 0);
    assert(ws_end(s, 2) == 2);
    assert(ws_end(s, 1) == 2);
    let r = s.subrange(5, s.len() as int);
    assert(r[0] == ' ');
    assert(r[1] == t[0]);
    assert(ws_end(r, 1) == 1);
    assert(ws_end(r, 0) == 1);
    assert(r.last() == t.last());
    assert(ws_start_back(r, r.len() as int) == r.len());
    assert(r.subrange(1, r.len() as int) =~= t);
    assert forall|i: int| 1 <= i < r.len() implies r[i] != '\n' by {
        assert(r[i] == t[i - 1]);
    }
    lemma_task_no_heading(s);
}

/// An appended task reads back as the file's last task: open, at indent 0,
/// with the trimmed text, on the last line. When the file ended a line, the
/// tasks before it read as they did. The text must trim to a single
/// non-empty line.
pub proof fn law_append_read_back(existing: Seq<char>, text: Seq<char>)
    requires
        spec_trim(text).len() > 0,
        !spec_trim(text).contains('\n'),
    ensures
        ({
            let out = spec_append_task(existing, text);
            let es = text_entries(out);
            let n = lines(out).len();
            &&& es.len() > 0
            &&& es.last() == TaskEntry {
                line: n,
                indent: 0,
                completed: false,
                text: spec_trim(text),
                quadrant: quadrant_after(lines(out), n - 1),
            }
            &&& (existing.len() > 0 && existing.last() == '\n') ==> es.drop_last() == text_entries(existing)
        }),
{
    let t = spec_trim(text);
    lemma_trim_ends(text);
    let base = if existing.len() > 0 && existing.last() != '\n' { existing.push('\n') } else { existing };
    let base2 = if base.len() == 0 { "# Inbox\n\n"@ } else { base };
    reveal_strlit("# Inbox\n\n");
    reveal_strlit("- [ ] ");
    let line = "- [ ] "@ + t;
    let piece = line.push('\n');
    let out = spec_append_task(existing, text);
    assert(out =~= base2 + piece);
    assert(base2.len() == 0 || base2.last() == '\n');
    assert forall|j: int| 0 <= j < piece.len() - 1 implies #[trigger] piece[j] != '\n' by {
        if j >= 6 {
            assert(piece[j] == t[j - 6]);
        }
    }
    lemma_pieces_append(base2, piece);
    let ls = lines(base2);
    assert(strip_eol(piece) =~= line);
    assert(lines(out) =~= ls.push(line));
    lemma_new_task_line(t);
    lemma_entries_prefix(ls, line, ls.len() as int);
    if existing.len() > 0 && existing.last() == '\n' {
        assert(base2 == existing);
    }
}

proof fn lemma_ws_end_run(s: Seq<char>, i: int, j: int)
    requires
        0 <= i <= j < s.len(),
        forall|m: int| i <= m < j ==> is_ws(#[trigger] s[m]),
        !is_ws(s[j]),
    ensures
        ws_end(s, i) == j,
    decreases j - i,
{
    if i < j {
        lemma_ws_end_run(s, i + 1, j);
    }
}

/// The white-space runs of a line with a task prefix end at its bullet and
/// at its checkbox.
proof fn lemma_prefix_runs(body: Seq<char>)
    requires
        spec_prefix_len(body) is Some,
    ensures
        ({
            let ia = indent_end(body, 0);
            let c = space_end(body, ia + 1);
            &&& ws_end(body, 0) == ia
            &&& ws_end(body, ia + 1) == c
            &&& 0 <= ia && ia + 1 < c
            &&& c + 2 < spec_prefix_len(body).unwrap() <= body.len()
        }),
{
    lemma_indent_end(body, 0);
    let ia = indent_end(body, 0);
    lemma_space_end(body, ia + 1);
    let c = space_end(body, ia + 1);
    lemma_space_end(body, c + 3);
    assert forall|m: int| 0 <= m < ia implies is_ws(#[trigger] body[m]) by {}
    lemma_ws_end_run(body, 0, ia);
    assert forall|m: int| ia + 1 <= m < c implies is_ws(#[trigger] body[m]) by {}
    lemma_ws_end_run(body, ia + 1, c);
}

/// A task prefix followed by a trimmed one-line text reads as a task with
/// that text, the prefix's indent and its mark.
proof fn lemma_prefixed_task(body: Seq<char>, t: Seq<char>)
    requires
        spec_prefix_len(body) is Some,
        t.len() > 0,
        !is_ws(t[0]),
        !is_ws(t.last()),
        !t.contains('\n'),
    ensures
        ({
            let ia = indent_end(body, 0);
            let c = space_end(body, ia + 1);
            let s = body.take(spec_prefix_len(body).unwrap()) + t;
            &&& spec_parse_line(s) == Some((ia, body[c + 1] != ' ', t))
            &&& ws_end(body, 0) == ia
            &&& ws_end(body, ia + 1) == c
            &&& c + 2 < spec_prefix_len(body).unwrap() <= body.len()
        }),
{
    let kp = spec_prefix_len(body).unwrap();
    lemma_indent_end(body, 0);
    let ia = indent_end(body, 0);
    lemma_space_end(body, ia + 1);
    let c = space_end(body, ia + 1);
    lemma_space_end(body, c + 3);
    let s = body.take(kp) + t;
    assert forall|m: int| 0 <= m < ia implies is_ws(#[trigger] s[m]) by {
        assert(s[m] == body[m]);
    }
    assert(s[ia] == body[ia]);
    lemma_ws_end_run(s, 0, ia);
    assert forall|m: int| 0 <= m < ia implies is_ws(#[trigger] body[m]) by {}
    lemma_ws_end_run(body, 0, ia);
    assert forall|m: int| ia + 1 <= m < c implies is_ws(#[trigger] s[m]) by {
        assert(s[m] == body[m]);
    }
    assert(s[c] == body[c]);
    lemma_ws_end_run(s, ia + 1, c);
    assert forall|m: int| ia + 1 <= m < c implies is_ws(#[trigger] body[m]) by {}
    lemma_ws_end_run(body, ia + 1, c);
    assert(s[c + 1] == body[c + 1] && s[c + 2] == body[c + 2]);
    let r = s.subrange(c + 3, s.len() as int);
    let sp = kp - (c + 3);
    assert forall|m: int| 0 <= m < sp implies is_ws(#[trigger] r[m]) by {
        assert(r[m] == body[c + 3 + m]);
    }
    assert(r[sp] == t[0]);
    lemma_ws_end_run(r, 0, sp);
    assert(r.last() == t.last());
    assert(ws_start_back(r, r.len() as int) == r.len());
    assert(r.subrange(sp, r.len() as int) =~= t);
    assert forall|m: int| sp <= m < r.len() implies r[m] != '\n' by {
        assert(r[m] == t[m - sp]);
    }
}

/// The piece of a task line with its text replaced is a line of its own.
proof fn lemma_update_piece_shape(piece: Seq<char>, t: Seq<char>)
    requires
        forall|j: int| 0 <= j < piece.len() - 1 ==> #[trigger] piece[j] != '\n',
        spec_prefix_len(piece_body(piece)) is Some,
        t.len() > 0,
        !is_ws(t.last()),
        !t.contains('\n'),
    ensures
        ({
            let body = piece_body(piece);
            let pt = body.take(spec_prefix_len(body).unwrap()) + t;
            let np = pt + piece.skip(body_end(piece));
            &&& np.len() > 0
            &&& forall|j: int| 0 <= j < np.len() - 1 ==> #[trigger] np[j] != '\n'
            &&& (piece.len() > 0 && piece.last() == '\n') ==> np.last() == '\n'
            &&& piece_body(np) == pt
        }),
{
    let e = body_end(piece);
    lemma_eol_start(piece, piece.len() as int);
    let body = piece.take(e);
    let kp = spec_prefix_len(body).unwrap();
    lemma_prefix_runs(body);
    let pt = body.take(kp) + t;
    let tail = piece.skip(e);
    let np = pt + tail;
    assert(kp <= e);
    assert(pt.len() == kp + t.len());
    assert(t.last() != '\n' && t.last() != '\r');
    assert forall|j: int| 0 <= j < np.len() - 1 implies #[trigger] np[j] != '\n' by {
        if j < kp {
            assert(np[j] == piece[j]);
        } else if j < pt.len() {
            assert(np[j] == t[j - kp]);
        } else {
            assert(np[j] == piece[e + (j - pt.len())]);
        }
    }
    if piece.len() > 0 && piece.last() == '\n' {
        assert(tail.len() > 0);
        assert(np.last() == piece.last());
    }
    assert forall|m: int| pt.len() <= m < np.len() implies crate::text::is_eol(#[trigger] np[m]) by {
        assert(np[m] == piece[e + (m - pt.len())]);
    }
    assert(np[pt.len() - 1] == t.last());
    crate::storage::lemma_eol_start_at(np, pt.len() as int);
    assert(piece_body(np) =~= pt);
}

/// The line of such a piece reads as the task with the new text.
proof fn lemma_update_new_line(piece: Seq<char>, t: Seq<char>)
    requires
        forall|j: int| 0 <= j < piece.len() - 1 ==> #[trigger] piece[j] != '\n',
        spec_prefix_len(piece_body(piece)) is Some,
        t.len() > 0,
        !is_ws(t[0]),
        !is_ws(t.last()),
        !t.contains('\n'),
    ensures
        ({
            let body = piece_body(piece);
            let np = body.take(spec_prefix_len(body).unwrap()) + t + piece.skip(body_end(piece));
            let ia = indent_end(body, 0);
            let c = space_end(body, ia + 1);
            spec_parse_line(strip_eol(np)) == Some((ia, body[c + 1] != ' ', t))
        }),
{
    let body = piece_body(piece);
    let pt = body.take(spec_prefix_len(body).unwrap()) + t;
    let np = pt + piece.skip(body_end(piece));
    lemma_update_piece_shape(piece, t);
    lemma_prefixed_task(body, t);
    lemma_line_of_piece(np);
    let line2 = strip_eol(np);
    let x2 = line2.skip(pt.len() as int);
    assert forall|j: int| 0 <= j < x2.len() implies is_ws(#[trigger] x2[j]) && x2[j] != '\n' by {
        assert(x2[j] == line2[pt.len() + j]);
    }
    assert(line2 =~= pt + x2);
    lemma_parse_extend(pt, x2);
}

/// The line of a task piece with a task prefix reads with the prefix's
/// indent and mark.
proof fn lemma_update_old_line(piece: Seq<char>)
    requires
        forall|j: int| 0 <= j < piece.len() - 1 ==> #[trigger] piece[j] != '\n',
        spec_prefix_len(piece_body(piece)) is Some,
        spec_parse_line(strip_eol(piece)) is Some,
    ensures
        ({
            let body = piece_body(piece);
            let ia = indent_end(body, 0);
            let c = space_end(body, ia + 1);
            &&& spec_parse_line(strip_eol(piece)).unwrap().0 == ia
            &&& spec_parse_line(strip_eol(piece)).unwrap().1 == (body[c + 1] != ' ')
        }),
{
    let e = body_end(piece);
    let body = piece_body(piece);
    lemma_prefix_runs(body);
    lemma_line_of_piece(piece);
    let line = strip_eol(piece);
    let x = line.skip(e);
    assert(line =~= body + x);
    let ia = indent_end(body, 0);
    let cc = space_end(body, ia + 1);
    lemma_ws_end_prefix(body, x, 0, ia);
    lemma_ws_end_prefix(body, x, ia + 1, cc);
    assert(line[cc + 1] == body[cc + 1]);
}

/// Replacing a task's text reads back as that task with the new (trimmed)
/// text: same line, indent, completion and quadrant; every other task as
/// it was. This is about a line that reads as a task, with a new text that
/// trims to a single non-empty line.
pub proof fn law_update_read_back(c: Seq<char>, n: int, new_text: Seq<char>)
    requires
        spec_trim(new_text).len() > 0,
        !spec_trim(new_text).contains('\n'),
        spec_replace_text(c, n, spec_trim(new_text)) is Some,
        spec_parse_line(lines(c)[n - 1]) is Some,
    ensures
        ({
            let es = text_entries(c);
            let k = task_entries(lines(c), n - 1).len();
            let c2 = spec_replace_text(c, n, spec_trim(new_text)).unwrap();
            &&& k < es.len()
            &&& es[k as int].line == n
            &&& text_entries(c2) == es.update(k as int, reread(es[k as int], es[k as int].completed, spec_trim(new_text)))
        }),
{
    let t = spec_trim(new_text);
    lemma_trim_ends(new_text);
    let ps = pieces(c);
    lemma_pieces_shape(c);
    let i = n - 1;
    let piece = ps[i];
    assert forall|j: int| 0 <= j < piece.len() - 1 implies #[trigger] piece[j] != '\n' by {
        assert(ps[i][j] != '\n');
    }
    let ls = lines(c);
    assert(ls[i] == strip_eol(piece));
    lemma_update_piece_shape(piece, t);
    lemma_update_new_line(piece, t);
    lemma_update_old_line(piece);
    let body = piece_body(piece);
    let np = body.take(spec_prefix_len(body).unwrap()) + t + piece.skip(body_end(piece));
    if i < ps.len() - 1 {
        assert(piece.last() == '\n');
    }
    crate::storage::lemma_update_piece(ps, i, np);
    let c2 = spec_replace_text(c, n, t).unwrap();
    assert(c2 == ps.update(i, np).flatten());
    let line2 = strip_eol(np);
    assert(lines(c2) =~= ls.update(i, line2));
    lemma_entries_replace(ls, line2, i, ls.len() as int);
}

/// The heading written for a new quadrant section names that quadrant.
proof fn lemma_section_heading(q: Quadrant)
    ensures
        spec_heading("## "@ + spec_quadrant_label(q)) is Some,
        spec_heading_quadrant("## "@ + spec_quadrant_label(q)) == Some(Some(q)),
        !("## "@ + spec_quadrant_label(q)).contains('\n'),
        ("## "@ + spec_quadrant_label(q)).last() != '\r',
{
    reveal_strlit("## ");
    reveal_strlit("🔴 紧急+重要");
    reveal_strlit("🟡 重要不紧急");
    reveal_strlit("🟠 紧急不重要");
    reveal_strlit("🟢 不紧急不重要");
    let l = spec_quadrant_label(q);
    let s = "## "@ + l;
    assert(s[0] == '#' && s[1] == '#' && s[2] == ' ');
    assert(ws_end(s, 0) == 0);
    assert(crate::parser::hash_end(s, 2) == 2);
    assert(crate::parser::hash_end(s, 1) == 2);
    assert(crate::parser::hash_end(s, 0) == 2);
    let r = s.subrange(2, s.len() as int);
    assert(r[0] == ' ');
    assert(r[1] == l[0]);
    assert(!is_ws(l[0]));
    assert(ws_end(r, 1) == 1);
    assert(ws_end(r, 0) == 1);
    assert(!is_ws(l.last()));
    assert(r.last() == l.last());
    assert(ws_start_back(r, r.len() as int) == r.len());
    assert(r.subrange(1, r.len() as int) =~= l);
    assert forall|i: int| 1 <= i < r.len() implies r[i] != '\n' by {
        assert(r[i] == l[i - 1]);
    }
    match q {
        Quadrant::UrgentImportant => {
            assert(l[0] == '\u{1F534}');
        },
        Quadrant::NotUrgentImportant => {
            assert(l[0] == '\u{1F7E1}');
            assert(!l.contains('\u{1F534}'));
        },
        Quadrant::UrgentNotImportant => {
            assert(l[0] == '\u{1F7E0}');
            assert(!l.contains('\u{1F534}'));
            assert(!l.contains('\u{1F7E1}'));
        },
        Quadrant::NotUrgentNotImportant => {
            assert(l[0] == '\u{1F7E2}');
            assert(!l.contains('\u{1F534}'));
            assert(!l.contains('\u{1F7E1}'));
            assert(!l.contains('\u{1F7E0}'));
        },
    }
    assert(spec_detect_quadrant(l) == Some(q));
    assert(!s.contains('\n')) by {
        if s.contains('\n') {
            let i = choose|i: int| 0 <= i < s.len() && s[i] == '\n';
            if i >= 2 {
                assert(r[i - 2] == s[i]);
            }
        }
    }
    assert(s.last() == l.last());
}

/// The lines of a text with a new quadrant section appended: the text's
/// lines (after its line feeds are made up), the heading, a blank line and the task.
proof fn lemma_new_section_lines(existing: Seq<char>, t: Seq<char>, q: Quadrant)
    requires
        !t.contains('\n'),
        t.len() > 0,
        !is_ws(t.last()),
    ensures
        ({
            let s1 = if existing.len() > 0 && existing.last() != '\n' { existing.push('\n') } else { existing };
            let s2 = if s1.len() > 0 && !ends_with_blank_line(s1) { s1.push('\n') } else { s1 };
            lines(spec_new_section(existing, t, q)) == lines(s2).push("## "@ + spec_quadrant_label(q)).push(Seq::<char>::empty()).push("- [ ] "@ + t)
        }),
{
    let s1 = if existing.len() > 0 && existing.last() != '\n' { existing.push('\n') } else { existing };
    let s2 = if s1.len() > 0 && !ends_with_blank_line(s1) { s1.push('\n') } else { s1 };
    reveal_strlit("## ");
    reveal_strlit("\n\n- [ ] ");
    reveal_strlit("- [ ] ");
    let h = "## "@ + spec_quadrant_label(q);
    let hp = h.push('\n');
    let blank = seq!['\n'];
    let tl = "- [ ] "@ + t;
    let tp = tl.push('\n');
    let out = spec_new_section(existing, t, q);
    assert(out =~= s2 + hp + blank + tp);
    assert(s2.len() == 0 || s2.last() == '\n');
    lemma_section_heading(q);
    assert forall|j: int| 0 <= j < hp.len() - 1 implies #[trigger] hp[j] != '\n' by {
        assert(hp[j] == h[j]);
        assert(h.contains(h[j]));
    }
    lemma_pieces_append(s2, hp);
    lemma_pieces_append(s2 + hp, blank);
    assert forall|j: int| 0 <= j < tp.len() - 1 implies #[trigger] tp[j] != '\n' by {
        if j >= 6 {
            assert(tp[j] == t[j - 6]);
        }
    }
    lemma_pieces_append(s2 + hp + blank, tp);
    assert(strip_eol(hp) =~= h);
    assert(strip_eol(blank) =~= Seq::<char>::empty());
    assert(tl.last() == t.last());
    assert(strip_eol(tp) =~= tl);
    assert(lines(out) =~= lines(s2).push(h).push(Seq::<char>::empty()).push(tl));
}

/// A task added to a quadrant that has no heading yet (with heading
/// creation allowed) reads back as the file's last task, open, in that
/// quadrant, with the trimmed text. The text must trim to a single
/// non-empty line.
pub proof fn law_new_section_read_back(existing: Seq<char>, text: Seq<char>, q: Quadrant)
    requires
        spec_trim(text).len() > 0,
        !spec_trim(text).contains('\n'),
        first_quadrant_heading(pieces(existing), q, 0) < 0,
    ensures
        ({
            let out = spec_append_to_quadrant(existing, text, Some(q), true);
            &&& out is Ok
            &&& text_entries(out->Ok_0).len() > 0
            &&& text_entries(out->Ok_0).last() == TaskEntry {
                line: lines(out->Ok_0).len(),
                indent: 0,
                completed: false,
                text: spec_trim(text),
                quadrant: Some(q),
            }
        }),
{
    let t = spec_trim(text);
    lemma_trim_ends(text);
    let s1 = if existing.len() > 0 && existing.last() != '\n' { existing.push('\n') } else { existing };
    let s2 = if s1.len() > 0 && !ends_with_blank_line(s1) { s1.push('\n') } else { s1 };
    let out = spec_new_section(existing, t, q);
    assert(spec_append_to_quadrant(existing, text, Some(q), true) == Ok::<Seq<char>, Quadrant>(out));
    lemma_new_section_lines(existing, t, q);
    lemma_section_heading(q);
    let h = "## "@ + spec_quadrant_label(q);
    let tl = "- [ ] "@ + t;
    let ls3 = lines(s2).push(h).push(Seq::<char>::empty());
    assert(lines(out) == ls3.push(tl));
    lemma_new_task_line(t);
    let e: Seq<char> = Seq::empty();
    assert(spec_heading(e) is None) by {
        assert(ws_end(e, 0) == 0);
        assert(crate::parser::hash_end(e, 0) == 0);
    }
    assert(spec_parse_line(e) is None);
    assert(ls3[ls3.len() - 1] == e);
    assert(ls3[ls3.len() - 2] == h);
    assert(quadrant_after(ls3, ls3.len() - 1) == Some(q));
    assert(quadrant_after(ls3, ls3.len() as int) == Some(q));
    lemma_entries_prefix(ls3, tl, ls3.len() as int);
}

/// The quadrant a line names as a heading, if it is one that names one.
pub open spec fn named(l: Seq<char>) -> Option<Quadrant> {
    match spec_heading_quadrant(l) {
        Some(Some(q)) => Some(q),
        _ => None,
    }
}

proof fn lemma_detect_single_ws(c: char)
    requires
        is_ws(c),
    ensures
        spec_detect_quadrant(seq![c]) is None,
{
    assert(!seq![c].contains('\u{1F534}')) by {
        if seq![c].contains('\u{1F534}') {
            assert(seq![c][0] == '\u{1F534}');
        }
    }
    assert(!seq![c].contains('\u{1F7E1}')) by {
        if seq![c].contains('\u{1F7E1}') {
            assert(seq![c][0] == '\u{1F7E1}');
        }
    }
    assert(!seq![c].contains('\u{1F7E0}')) by {
        if seq![c].contains('\u{1F7E0}') {
            assert(seq![c][0] == '\u{1F7E0}');
        }
    }
    assert(!seq![c].contains('\u{1F7E2}')) by {
        if seq![c].contains('\u{1F7E2}') {
            assert(seq![c][0] == '\u{1F7E2}');
        }
    }
}

/// A heading text read from white space alone names no quadrant.
proof fn lemma_tail_all_ws_names_none(r: Seq<char>)
    requires
        ws_end(r, 0) >= r.len(),
    ensures
        match spec_tail_text(r) {
            Some(t) => spec_detect_quadrant(t) is None,
            None => true,
        },
{
    lemma_ws_end(r, 0);
    if spec_tail_text(r) is Some && ws_end(r, 0) > 0 {
        let j = last_plain_at_or_before(r, r.len() - 1);
        lemma_last_plain(r, r.len() - 1);
        lemma_detect_single_ws(r[j]);
    }
}

/// What a heading text names does not change when white space other than
/// line feeds follows it.
proof fn lemma_tail_names_extend(r: Seq<char>, x: Seq<char>)
    requires
        !r.contains('\n'),
        forall|j: int| 0 <= j < x.len() ==> is_ws(#[trigger] x[j]) && x[j] != '\n',
    ensures
        (match spec_tail_text(r + x) {
            Some(t) => spec_detect_quadrant(t),
            None => None,
        }) == (match spec_tail_text(r) {
            Some(t) => spec_detect_quadrant(t),
            None => None,
        }),
{
    let k = ws_end(r, 0);
    lemma_ws_end(r, 0);
    let rx = r + x;
    if k == 0 && r.len() > 0 {
        lemma_ws_end_prefix(r, x, 0, 0);
    } else if k < r.len() {
        lemma_ws_start_back(r, r.len() as int);
        let e = ws_start_back(r, r.len() as int);
        if e <= k {
            assert(is_ws(r[k]));
        }
        assert forall|i: int| k <= i < e implies r[i] != '\n' by {
            if r[i] == '\n' {
                assert(r.contains('\n'));
            }
        }
        assert(spec_tail_text(r) is Some);
        assert(spec_tail_text(r).unwrap()[0] == r[k]);
        lemma_tail_text_extend(r, x);
    } else {
        lemma_tail_all_ws_names_none(r);
        assert forall|m: int| 0 <= m < rx.len() implies is_ws(#[trigger] rx[m]) by {
            if m < r.len() {
                assert(rx[m] == r[m]);
            } else {
                assert(rx[m] == x[m - r.len()]);
            }
        }
        lemma_ws_end_all(rx, 0);
        lemma_tail_all_ws_names_none(rx);
    }
}

proof fn lemma_hash_end_prefix(s: Seq<char>, x: Seq<char>, i: int)
    requires
        0 <= i <= s.len(),
        forall|j: int| 0 <= j < x.len() ==> is_ws(#[trigger] x[j]),
    ensures
        crate::parser::hash_end(s + x, i) == crate::parser::hash_end(s, i),
    decreases s.len() - i,
{
    if i < s.len() {
        assert((s + x)[i] == s[i]);
        if s[i] == '#' {
            lemma_hash_end_prefix(s, x, i + 1);
        }
    } else if x.len() > 0 {
        assert((s + x)[i] == x[0]);
    }
}

/// White space other than line feeds after a line does not change the
/// quadrant it names.
proof fn lemma_named_extend(s: Seq<char>, x: Seq<char>)
    requires
        !s.contains('\n'),
        forall|j: int| 0 <= j < x.len() ==> is_ws(#[trigger] x[j]) && x[j] != '\n',
    ensures
        named(s + x) == named(s),
{
    let sx = s + x;
    let a = ws_end(s, 0);
    lemma_ws_end(s, 0);
    if a < s.len() {
        lemma_ws_end_prefix(s, x, 0, a);
        lemma_hash_end_prefix(s, x, a);
        let h = crate::parser::hash_end(s, a);
        crate::parser::lemma_hash_end(s, a);
        let r = s.subrange(h, s.len() as int);
        assert(sx.subrange(h, sx.len() as int) =~= r + x);
        assert(!r.contains('\n')) by {
            if r.contains('\n') {
                let i = choose|i: int| 0 <= i < r.len() && r[i] == '\n';
                assert(s[h + i] == '\n');
                assert(s.contains('\n'));
            }
        }
        lemma_tail_names_extend(r, x);
    } else {
        assert forall|m: int| 0 <= m < sx.len() implies is_ws(#[trigger] sx[m]) by {
            if m < s.len() {
                assert(sx[m] == s[m]);
            } else {
                assert(sx[m] == x[m - s.len()]);
            }
        }
        lemma_ws_end_all(sx, 0);
        assert(crate::parser::hash_end(s, a) == a);
        assert(crate::parser::hash_end(sx, sx.len() as int) == sx.len());
    }
}

/// The first piece at or after `j` that is a heading of level at most
/// `level` (where a section ends), or the number of pieces.
pub open spec fn stop_from(ps: Seq<Seq<char>>, level: int, j: int) -> int
    decreases ps.len() - j,
{
    if j < 0 || j >= ps.len() {
        ps.len() as int
    } else if is_section_stop(ps[j], level) {
        j
    } else {
        stop_from(ps, level, j + 1)
    }
}

/// The section end is a piece boundary between where the scan started and
/// where the section stops.
proof fn lemma_section_end_index(ps: Seq<Seq<char>>, level: int, j: int, m0: int) -> (m: int)
    requires
        0 <= m0 <= j <= ps.len(),
    ensures
        section_end(ps, level, j, offset(ps, m0)) == offset(ps, m),
        m0 <= m <= stop_from(ps, level, j),
        stop_from(ps, level, j) <= ps.len(),
    decreases ps.len() - j,
{
    if j >= ps.len() || is_section_stop(ps[j], level) {
        m0
    } else {
        let m1 = if !crate::storage::is_blank(ps[j]) { j + 1 } else { m0 };
        lemma_section_end_index(ps, level, j + 1, m1)
    }
}

proof fn lemma_first_quadrant_heading(ps: Seq<Seq<char>>, q: Quadrant, i: int)
    requires
        first_quadrant_heading(ps, q, i) >= 0,
    ensures
        0 <= first_quadrant_heading(ps, q, i) < ps.len(),
        spec_heading_quadrant(piece_body(ps[first_quadrant_heading(ps, q, i)])) == Some(Some(q)),
    decreases ps.len() - i,
{
    if 0 <= i < ps.len() && spec_heading_quadrant(piece_body(ps[i])) != Some(Some(q)) {
        lemma_first_quadrant_heading(ps, q, i + 1);
    }
}

/// Inside the section of a heading that names `q`, where no heading names
/// another quadrant, the quadrant in force is `q`.
proof fn lemma_quadrant_in_section(ls: Seq<Seq<char>>, idx: int, m: int, q: Quadrant)
    requires
        0 <= idx < m <= ls.len(),
        named(ls[idx]) == Some(q),
        forall|j: int| idx < j < m ==> named(#[trigger] ls[j]) is None || named(ls[j]) == Some(q),
    ensures
        quadrant_after(ls, m) == Some(q),
    decreases m,
{
    if m > idx + 1 {
        lemma_quadrant_in_section(ls, idx, m - 1, q);
    }
}

/// Lines added after the first `m` do not change what those lines say.
proof fn lemma_entries_prefix_concat(ls1: Seq<Seq<char>>, ls2: Seq<Seq<char>>, m: int)
    requires
        0 <= m <= ls1.len(),
    ensures
        task_entries(ls1 + ls2, m) == task_entries(ls1, m),
        quadrant_after(ls1 + ls2, m) == quadrant_after(ls1, m),
    decreases m,
{
    if m > 0 {
        assert((ls1 + ls2)[m - 1] == ls1[m - 1]);
        lemma_entries_prefix_concat(ls1, ls2, m - 1);
    }
}

/// The tasks of the first `n1` lines are the first ones of the first `n2`.
proof fn lemma_entries_grow(ls: Seq<Seq<char>>, n1: int, n2: int)
    requires
        0 <= n1 <= n2,
    ensures
        task_entries(ls, n1).len() <= task_entries(ls, n2).len(),
        forall|k: int| 0 <= k < task_entries(ls, n1).len() ==> #[trigger] task_entries(ls, n2)[k] == task_entries(ls, n1)[k],
    decreases n2 - n1,
{
    if n2 > n1 {
        lemma_entries_grow(ls, n1, n2 - 1);
        let prev = task_entries(ls, n2 - 1);
        let cur = task_entries(ls, n2);
        if cur.len() > prev.len() {
            assert(cur == prev.push(cur.last()));
        }
    }
}

/// A whole line put between the first `m` pieces and the rest.
proof fn lemma_pieces_insert(ps: Seq<Seq<char>>, m: int, tp: Seq<char>)
    requires
        well_shaped(ps),
        1 <= m <= ps.len(),
        ps[m - 1].last() == '\n',
        closed_piece(tp),
    ensures
        pieces(ps.take(m).flatten() + tp + ps.skip(m).flatten()) == ps.take(m).push(tp) + ps.skip(m),
{
    let qs = ps.take(m).push(tp) + ps.skip(m);
    assert forall|k: int| 0 <= k < qs.len() implies (#[trigger] qs[k]).len() > 0 by {
        if k < m { assert(qs[k] == ps[k]); } else if k > m { assert(qs[k] == ps[k - 1]); }
    }
    assert forall|k: int| 0 <= k < qs.len() - 1 implies (#[trigger] qs[k]).last() == '\n' by {
        if k < m { assert(qs[k] == ps[k]); } else if k > m { assert(qs[k] == ps[k - 1]); }
    }
    assert forall|k: int, j: int| 0 <= k < qs.len() && 0 <= j < qs[k].len() - 1 implies #[trigger] qs[k][j] != '\n' by {
        if k < m { assert(qs[k] == ps[k]); } else if k > m { assert(qs[k] == ps[k - 1]); }
    }
    lemma_pieces_of_flatten(qs);
    vstd::seq_lib::lemma_flatten_concat(ps.take(m).push(tp), ps.skip(m));
    ps.take(m).lemma_flatten_push(tp);
}

/// The text before the `m`-th piece boundary and after it.
proof fn lemma_split_at_piece(c: Seq<char>, m: int)
    requires
        0 <= m <= pieces(c).len(),
    ensures
        c.take(offset(pieces(c), m)) == pieces(c).take(m).flatten(),
        c.skip(offset(pieces(c), m)) == pieces(c).skip(m).flatten(),
{
    let ps = pieces(c);
    lemma_pieces_shape(c);
    vstd::seq_lib::lemma_flatten_concat(ps.take(m), ps.skip(m));
    assert(ps.take(m) + ps.skip(m) =~= ps);
    let a = ps.take(m).flatten();
    assert(c.take(a.len() as int) =~= a);
    assert(c.skip(a.len() as int) =~= ps.skip(m).flatten());
}

/// A task put in front of the `m`-th piece boundary, after a line feed,
/// reads back as a task on line `m + 1` in the quadrant in force there.
proof fn lemma_insert_reads_back(existing: Seq<char>, t: Seq<char>, m: int)
    requires
        t.len() > 0,
        !is_ws(t[0]),
        !is_ws(t.last()),
        !t.contains('\n'),
        1 <= m <= pieces(existing).len(),
        pieces(existing)[m - 1].last() == '\n',
    ensures
        ({
            let out = spec_insert_task_at(existing, t, offset(pieces(existing), m));
            let k = task_entries(lines(existing), m).len();
            &&& k < text_entries(out).len()
            &&& text_entries(out)[k as int] == TaskEntry {
                line: (m + 1) as nat,
                indent: 0,
                completed: false,
                text: t,
                quadrant: quadrant_after(lines(existing), m),
            }
        }),
{
    let ps = pieces(existing);
    let ls = lines(existing);
    lemma_pieces_shape(existing);
    lemma_split_at_piece(existing, m);
    let head = ps.take(m).flatten();
    let rest = ps.skip(m).flatten();
    assert(ps.take(m) =~= ps.take(m - 1).push(ps[m - 1]));
    ps.take(m - 1).lemma_flatten_push(ps[m - 1]);
    assert(ps[m - 1].len() > 0);
    assert(head.last() == ps[m - 1].last());
    reveal_strlit("- [ ] ");
    let tl = "- [ ] "@ + t;
    let tp = tl.push('\n');
    let ins = offset(ps, m);
    let out = spec_insert_task_at(existing, t, ins);
    assert(out =~= head + tp + rest);
    assert forall|j: int| 0 <= j < tp.len() - 1 implies #[trigger] tp[j] != '\n' by {
        if j >= 6 {
            assert(tp[j] == t[j - 6]);
        }
    }
    lemma_pieces_insert(ps, m, tp);
    assert(tl.last() == t.last());
    assert(strip_eol(tp) =~= tl);
    let l1 = ls.take(m).push(tl);
    let l2 = ls.skip(m);
    assert(lines(out) =~= l1 + l2);
    lemma_new_task_line(t);
    lemma_entries_prefix_concat(l1, l2, m + 1);
    lemma_entries_prefix(ls.take(m), tl, m);
    assert(ls.take(m) + ls.skip(m) =~= ls);
    lemma_entries_prefix_concat(ls.take(m), ls.skip(m), m);
    lemma_entries_grow(l1 + l2, m + 1, (l1 + l2).len() as int);
}

/// Ending a text's last line adds a line feed to its last piece; that line
/// names the quadrant it named before.
proof fn lemma_lines_end_line(existing: Seq<char>)
    requires
        pieces(existing).len() > 0,
        pieces(existing).last().last() != '\n',
    ensures
        ({
            let ps = pieces(existing);
            let n = ps.len() - 1;
            &&& lines(existing.push('\n')) == lines(existing).update(n, strip_eol(ps[n].push('\n')))
            &&& named(strip_eol(ps[n].push('\n'))) == named(lines(existing)[n])
            &&& !strip_eol(ps[n].push('\n')).contains('\n')
        }),
{
    let ps = pieces(existing);
    lemma_pieces_shape(existing);
    let n = ps.len() - 1;
    let p = ps[n];
    let np = p.push('\n');
    assert forall|j: int| 0 <= j < np.len() - 1 implies #[trigger] np[j] != '\n' by {
        if j < p.len() - 1 {
            assert(ps[n][j] != '\n');
        }
    }
    crate::storage::lemma_update_piece(ps, n, np);
    assert(ps.update(n, np) =~= ps.drop_last().push(np));
    assert(ps =~= ps.drop_last().push(p));
    ps.drop_last().lemma_flatten_push(np);
    ps.drop_last().lemma_flatten_push(p);
    assert(ps.update(n, np).flatten() =~= existing.push('\n'));
    assert(lines(existing.push('\n')) =~= lines(existing).update(n, strip_eol(np)));
    assert(!p.contains('\n')) by {
        if p.contains('\n') {
            let j = choose|j: int| 0 <= j < p.len() && p[j] == '\n';
            if j < p.len() - 1 {
                assert(ps[n][j] != '\n');
            }
        }
    }
    assert(strip_eol(p) == p);
    if p.len() > 0 && p.last() == '\r' {
        let d = p.drop_last();
        assert(strip_eol(np) =~= d);
        assert(d + seq!['\r'] =~= p);
        assert(!d.contains('\n')) by {
            if d.contains('\n') {
                let j = choose|j: int| 0 <= j < d.len() && d[j] == '\n';
                assert(p[j] == d[j]);
            }
        }
        lemma_named_extend(d, seq!['\r']);
    } else {
        assert(strip_eol(np) =~= p);
    }
}

/// A piece whose body names `q` as a heading gives a line that names `q`.
proof fn lemma_piece_line_names(hp: Seq<char>, q: Quadrant)
    requires
        forall|j: int| 0 <= j < hp.len() - 1 ==> #[trigger] hp[j] != '\n',
        named(piece_body(hp)) == Some(q),
    ensures
        named(strip_eol(hp)) == Some(q),
{
    lemma_line_of_piece(hp);
    lemma_eol_start(hp, hp.len() as int);
    let x = strip_eol(hp).skip(body_end(hp));
    assert(strip_eol(hp) =~= piece_body(hp) + x);
    assert forall|j: int| 0 <= j < x.len() implies is_ws(#[trigger] x[j]) && x[j] != '\n' by {
        assert(x[j] == strip_eol(hp)[body_end(hp) + j]);
    }
    assert(!piece_body(hp).contains('\n')) by {
        if piece_body(hp).contains('\n') {
            let j = choose|j: int| 0 <= j < piece_body(hp).len() && piece_body(hp)[j] == '\n';
            assert(piece_body(hp)[j] == hp[j]);
        }
    }
    lemma_named_extend(piece_body(hp), x);
}

/// The task put after a last line without a line feed reads back in the
/// quadrant of the section.
proof fn lemma_after_open_last_line(existing: Seq<char>, t: Seq<char>, q: Quadrant, idx: int)
    requires
        t.len() > 0,
        !is_ws(t[0]),
        !is_ws(t.last()),
        !t.contains('\n'),
        0 <= idx < pieces(existing).len(),
        pieces(existing).last().last() != '\n',
        named(lines(existing)[idx]) == Some(q),
        forall|j: int| idx < j < pieces(existing).len() ==> named(#[trigger] lines(existing)[j]) is None
            || named(lines(existing)[j]) == Some(q),
    ensures
        ({
            let out = spec_insert_task_at(existing, t, existing.len() as int);
            let k = task_entries(lines(existing.push('\n')), pieces(existing).len() as int).len();
            &&& k < text_entries(out).len()
            &&& text_entries(out)[k as int] == TaskEntry {
                line: text_entries(out)[k as int].line,
                indent: 0,
                completed: false,
                text: t,
                quadrant: Some(q),
            }
        }),
{
    let ps = pieces(existing);
    let ls = lines(existing);
    let m = ps.len() as int;
    let n = m - 1;
    lemma_pieces_shape(existing);
    lemma_lines_end_line(existing);
    let e1 = existing.push('\n');
    let ls1 = lines(e1);
    assert forall|j: int| idx < j < m implies named(#[trigger] ls1[j]) is None || named(ls1[j]) == Some(q) by {
        if j != n {
            assert(ls1[j] == ls[j]);
        }
    }
    if idx != n {
        assert(ls1[idx] == ls[idx]);
    }
    lemma_quadrant_in_section(ls1, idx, m, q);
    reveal_strlit("- [ ] ");
    let tl = "- [ ] "@ + t;
    let tp = tl.push('\n');
    let out = spec_insert_task_at(existing, t, existing.len() as int);
    assert(existing.len() > 0);
    assert(ps =~= ps.drop_last().push(ps.last()));
    ps.drop_last().lemma_flatten_push(ps.last());
    assert(existing.last() == ps.last().last());
    assert(existing.take(existing.len() as int) =~= existing);
    assert(existing.skip(existing.len() as int) =~= Seq::<char>::empty());
    assert(out =~= e1 + tp);
    assert forall|j: int| 0 <= j < tp.len() - 1 implies #[trigger] tp[j] != '\n' by {
        if j >= 6 {
            assert(tp[j] == t[j - 6]);
        }
    }
    lemma_pieces_append(e1, tp);
    assert(tl.last() == t.last());
    assert(strip_eol(tp) =~= tl);
    assert(lines(out) =~= ls1.push(tl));
    lemma_new_task_line(t);
    lemma_entries_prefix(ls1, tl, ls1.len() as int);
}

/// A task added to a quadrant whose heading exists reads back in that
/// quadrant, open, with the trimmed text, when no heading inside that
/// section names another quadrant (such a heading would pass its own
/// quadrant on to the lines after it). The text must trim to a single
/// non-empty line.
pub proof fn law_existing_section_read_back(existing: Seq<char>, text: Seq<char>, q: Quadrant, auto_create: bool)
    requires
        spec_trim(text).len() > 0,
        !spec_trim(text).contains('\n'),
        first_quadrant_heading(pieces(existing), q, 0) >= 0,
        ({
            let ps = pieces(existing);
            let idx = first_quadrant_heading(ps, q, 0);
            forall|j: int| idx < j < stop_from(ps, heading_level(ps[idx]), idx + 1)
                ==> named(#[trigger] lines(existing)[j]) is None || named(lines(existing)[j]) == Some(q)
        }),
    ensures
        ({
            let out = spec_append_to_quadrant(existing, text, Some(q), auto_create);
            &&& out is Ok
            &&& exists|k: int| 0 <= k < text_entries(out->Ok_0).len() && #[trigger] text_entries(out->Ok_0)[k] == TaskEntry {
                line: text_entries(out->Ok_0)[k].line,
                indent: 0,
                completed: false,
                text: spec_trim(text),
                quadrant: Some(q),
            }
        }),
{
    let t = spec_trim(text);
    lemma_trim_ends(text);
    let ps = pieces(existing);
    let ls = lines(existing);
    lemma_pieces_shape(existing);
    let idx = first_quadrant_heading(ps, q, 0);
    lemma_first_quadrant_heading(ps, q, 0);
    let level = heading_level(ps[idx]);
    let m = lemma_section_end_index(ps, level, idx + 1, idx + 1);
    let ins = spec_insertion_point(ps, idx);
    assert(ins == offset(ps, m));
    let out = spec_insert_task_at(existing, t, ins);
    assert(spec_append_to_quadrant(existing, text, Some(q), auto_create) == Ok::<Seq<char>, Quadrant>(out));
    let res = spec_append_to_quadrant(existing, text, Some(q), auto_create);
    assert(res->Ok_0 == out);
    let hp = ps[idx];
    assert forall|j: int| 0 <= j < hp.len() - 1 implies #[trigger] hp[j] != '\n' by {
        assert(ps[idx][j] != '\n');
    }
    lemma_piece_line_names(hp, q);
    assert(ls[idx] == strip_eol(hp));
    if ps[m - 1].last() == '\n' {
        lemma_quadrant_in_section(ls, idx, m, q);
        lemma_insert_reads_back(existing, t, m);
        let k = task_entries(ls, m).len() as int;
        let es = text_entries(out);
        assert(0 <= k < es.len());
        assert(es[k] == TaskEntry { line: es[k].line, indent: 0, completed: false, text: t, quadrant: Some(q) });
        assert(text_entries(res->Ok_0)[k] == TaskEntry { line: text_entries(res->Ok_0)[k].line, indent: 0, completed: false, text: t, quadrant: Some(q) });
    } else {
        assert(m == ps.len());
        lemma_offset_all(existing);
        assert(ins == existing.len());
        lemma_after_open_last_line(existing, t, q, idx);
        let k = task_entries(lines(existing.push('\n')), ps.len() as int).len() as int;
        let es = text_entries(out);
        assert(0 <= k < es.len());
        assert(es[k] == TaskEntry { line: es[k].line, indent: 0, completed: false, text: t, quadrant: Some(q) });
        assert(text_entries(res->Ok_0)[k] == TaskEntry { line: text_entries(res->Ok_0)[k].line, indent: 0, completed: false, text: t, quadrant: Some(q) });
    }
}

proof fn lemma_offset_all(c: Seq<char>)
    ensures
        offset(pieces(c), pieces(c).len() as int) == c.len(),
{
    lemma_pieces_shape(c);
    assert(pieces(c).take(pieces(c).len() as int) =~= pieces(c));
}

} // verus!
