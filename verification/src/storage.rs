//! Edits of a Markdown file's text that change one task line and leave
//! every other character as it was.

use vstd::prelude::*;
use crate::error::AppError;
use crate::parser::{hash_end, heading_quadrant, is_mark, lemma_hash_end, parse_chars, spec_bracket_pos, spec_heading_quadrant, spec_parse_line};
use crate::types::{hash_content, hex_encode, sha256_of, spec_hex, Quadrant};
use crate::history::{LineSnapshot, TaskLineState};
use crate::text::{
    body_end, body_end_of, chars_of, closed_piece, extend_range, join_pieces, lemma_pieces_shape,
    pieces, split_pieces, views, well_shaped, is_ws, ws_end, lemma_ws_end,
};

verus! {

/// Whether `s[j..j + 3]` is a checkbox `[ ]`, `[x]` or `[X]`.
pub open spec fn is_box_at(s: Seq<char>, j: int) -> bool {
    0 <= j && j + 2 < s.len() && s[j] == '[' && is_mark(s[j + 1]) && s[j + 2] == ']'
}

/// The first checkbox at or after `j`, or -1.
pub open spec fn first_box_from(s: Seq<char>, j: int) -> int
    decreases s.len() - j,
{
    if j < 0 || j + 2 >= s.len() {
        -1
    } else if is_box_at(s, j) {
        j
    } else {
        first_box_from(s, j + 1)
    }
}

/// `line` with the mark of its first checkbox replaced by `marker`, or unchanged when it has none.
pub open spec fn spec_replace_first_bracket(line: Seq<char>, marker: char) -> Seq<char> {
    let j = first_box_from(line, 0);
    if j >= 0 {
        line.update(j + 1, marker)
    } else {
        line
    }
}

pub proof fn lemma_first_box_from(s: Seq<char>, j: int, k: int)
    requires
        0 <= j <= k,
        is_box_at(s, k),
        forall|m: int| j <= m < k ==> !is_box_at(s, m),
    ensures
        first_box_from(s, j) == k,
    decreases k - j,
{
    if j < k {
        lemma_first_box_from(s, j + 1, k);
    }
}

pub proof fn lemma_first_box_none(s: Seq<char>, j: int)
    requires
        0 <= j,
        forall|m: int| j <= m ==> !is_box_at(s, m),
    ensures
        first_box_from(s, j) == -1,
    decreases s.len() - j,
{
    if j + 2 < s.len() {
        lemma_first_box_none(s, j + 1);
    }
}

/// Replace the mark of the first `[ ]`, `[x]` or `[X]` in `line` by `marker`.
pub fn replace_first_bracket(line: &str, marker: char) -> (out: String)
    ensures
        out@ == spec_replace_first_bracket(line@, marker),
{
    let mut cs = chars_of(line);
    let n = cs.len();
    let mut i: usize = 0;
    while i < n && n - i > 2
        invariant
            i <= n,
            n == cs@.len(),
            cs@ == line@,
            forall|m: int| 0 <= m < i ==> !is_box_at(line@, m),
        decreases n - i,
    {
        if cs[i] == '[' && cs[i + 2] == ']' && (cs[i + 1] == ' ' || cs[i + 1] == 'x' || cs[i + 1] == 'X') {
            proof {
                lemma_first_box_from(line@, 0, i as int);
            }
            cs.set(i + 1, marker);
            return crate::text::string_of(&cs, 0, n);
        }
        i += 1;
    }
    proof {
        assert forall|m: int| 0 <= m implies !is_box_at(line@, m) by {
            if m < i {
            }
        }
        lemma_first_box_none(line@, 0);
    }
    crate::text::string_of(&cs, 0, n)
}

/// In a task line the first checkbox is the task's own.
pub proof fn lemma_task_box_is_first(s: Seq<char>)
    requires
        spec_parse_line(s) is Some,
    ensures
        first_box_from(s, 0) == spec_bracket_pos(s),
{
    lemma_ws_end(s, 0);
    let a = ws_end(s, 0);
    lemma_ws_end(s, a + 1);
    let p = spec_bracket_pos(s);
    assert forall|m: int| 0 <= m < p implies !is_box_at(s, m) by {
        if m < a {
            assert(is_ws(s[m]));
        } else if m == a {
        } else {
            assert(is_ws(s[m]));
        }
    }
    lemma_first_box_from(s, 0, p);
}

/// The text after toggling the checkbox of line `n` (1-based), or `None`
/// when there is no such line or it is no task line.
///
/// The line's body is the line without its trailing `\r`/`\n` characters;
/// only the mark of its checkbox changes: `x` when it was open, a space
/// when it was done.
pub open spec fn spec_toggle(c: Seq<char>, n: int) -> Option<Seq<char>> {
    let ps = pieces(c);
    if 1 <= n <= ps.len() {
        let piece = ps[n - 1];
        let e = body_end(piece);
        let body = piece.take(e);
        match spec_parse_line(body) {
            Some((_, done, _)) => {
                let marked = body.update(spec_bracket_pos(body) + 1, if done { ' ' } else { 'x' });
                Some(ps.update(n - 1, marked + piece.skip(e)).flatten())
            },
            None => None,
        }
    } else {
        None
    }
}

/// `e` is `NotATaskLine` for `path` and line `n`.
pub open spec fn is_not_a_task_line(e: AppError, path: Seq<char>, n: int) -> bool {
    e matches AppError::NotATaskLine { path: p, line: l } && p@ == path && l == n
}

pub fn not_a_task_line(path: &str, line_number: usize) -> (e: AppError)
    ensures
        is_not_a_task_line(e, path@, line_number as int),
{
    AppError::NotATaskLine { path: String::from_str(path), line: line_number }
}

/// A piece with the same line ending as `piece` and body `body`.
pub fn rebuild_piece(body: &Vec<char>, piece: &Vec<char>, e: usize) -> (out: Vec<char>)
    requires
        e <= piece@.len(),
    ensures
        out@ == body@ + piece@.skip(e as int),
{
    let mut out = body.clone();
    proof {
        assert(out@ == body@);
    }
    extend_range(&mut out, piece, e, piece.len());
    proof {
        assert(piece@.subrange(e as int, piece@.len() as int) =~= piece@.skip(e as int));
    }
    out
}

/// Toggle the checkbox on line `line_number` (1-based) of `content`.
///
/// Fails with `NotATaskLine` when the line does not exist or is no task
/// line; every other line keeps its bytes, including its line ending.
pub fn toggle_content(content: &str, line_number: usize, path: &str) -> (res: Result<String, AppError>)
    ensures
        match res {
            Ok(s) => spec_toggle(content@, line_number as int) == Some(s@),
            Err(e) => spec_toggle(content@, line_number as int) is None && is_not_a_task_line(e, path@, line_number as int),
        },
{
    let cs = chars_of(content);
    let mut ps = split_pieces(&cs);
    if line_number == 0 || line_number > ps.len() {
        return Err(not_a_task_line(path, line_number));
    }
    let idx = line_number - 1;
    let piece = ps[idx].clone();
    let e = body_end_of(&piece);
    let mut body = crate::text::sub_chars(&piece, 0, e);
    proof {
        assert(piece@ == views(ps@)[idx as int]);
        assert(body@ =~= piece@.take(e as int));
    }
    match parse_chars(&body) {
        None => Err(not_a_task_line(path, line_number)),
        Some(parsed) => {
            proof {
                lemma_task_box_is_first(body@);
            }
            let marker = if parsed.completed { ' ' } else { 'x' };
            let pos = first_box_index(&body);
            body.set(pos + 1, marker);
            let newp = rebuild_piece(&body, &piece, e);
            let ghost old_views = views(ps@);
            ps.set(idx, newp);
            proof {
                assert(views(ps@) =~= old_views.update(idx as int, newp@));
            }
            Ok(join_pieces(&ps))
        },
    }
}

/// Index of the first checkbox of a task line.
fn first_box_index(cs: &Vec<char>) -> (j: usize)
    requires
        spec_parse_line(cs@) is Some,
    ensures
        j == spec_bracket_pos(cs@),
        j + 2 < cs@.len(),
{
    proof {
        lemma_task_box_is_first(cs@);
    }
    let n = cs.len();
    let mut i: usize = 0;
    while !(cs[i] == '[' && cs[i + 2] == ']' && (cs[i + 1] == ' ' || cs[i + 1] == 'x' || cs[i + 1] == 'X'))
        invariant
            0 <= i <= spec_bracket_pos(cs@),
            n == cs@.len(),
            spec_bracket_pos(cs@) + 2 < cs@.len(),
            first_box_from(cs@, 0) == spec_bracket_pos(cs@),
            is_box_at(cs@, spec_bracket_pos(cs@)),
            first_box_from(cs@, i as int) == spec_bracket_pos(cs@),
        decreases spec_bracket_pos(cs@) - i,
    {
        i += 1;
    }
    i
}


proof fn lemma_ws_end_agree(s: Seq<char>, t: Seq<char>, i: int, k: int)
    requires
        0 <= i <= k < s.len(),
        k < t.len(),
        ws_end(s, i) == k,
        forall|m: int| i <= m <= k ==> s[m] == t[m],
    ensures
        ws_end(t, i) == k,
    decreases k - i,
{
    lemma_ws_end(s, i);
    lemma_ws_end(s, k);
    if i < k {
        lemma_ws_end(s, i + 1);
        lemma_ws_end_agree(s, t, i + 1, k);
    } else {
        assert(!is_ws(s[k]));
        assert(!is_ws(t[k]));
    }
}

/// Changing the mark of a task line's checkbox keeps it a task line with
/// the same indent, bracket position and text; only completion follows the mark.
pub proof fn lemma_mark_change(body: Seq<char>, m: char)
    requires
        spec_parse_line(body) is Some,
        is_mark(m),
    ensures
        ({
            let b = spec_bracket_pos(body);
            let nb = body.update(b + 1, m);
            &&& spec_bracket_pos(nb) == b
            &&& spec_parse_line(nb) == Some((spec_parse_line(body).unwrap().0, m != ' ', spec_parse_line(body).unwrap().2))
        }),
{
    let b = spec_bracket_pos(body);
    let nb = body.update(b + 1, m);
    lemma_ws_end(body, 0);
    let a = ws_end(body, 0);
    lemma_ws_end(body, a + 1);
    lemma_ws_end_agree(body, nb, 0, a);
    lemma_ws_end_agree(body, nb, a + 1, b);
    assert(body.subrange(b + 3, body.len() as int) =~= nb.subrange(b + 3, nb.len() as int));
}

pub proof fn lemma_eol_start_at(s: Seq<char>, k: int)
    requires
        0 <= k <= s.len(),
        forall|m: int| k <= m < s.len() ==> crate::text::is_eol(#[trigger] s[m]),
        k > 0 ==> !crate::text::is_eol(s[k - 1]),
    ensures
        body_end(s) == k,
{
    lemma_eol_start_down(s, s.len() as int, k);
}

proof fn lemma_eol_start_down(s: Seq<char>, e: int, k: int)
    requires
        0 <= k <= e <= s.len(),
        forall|m: int| k <= m < e ==> crate::text::is_eol(#[trigger] s[m]),
        k > 0 ==> !crate::text::is_eol(s[k - 1]),
    ensures
        crate::text::eol_start(s, e) == k,
    decreases e - k,
{
    if e > k {
        lemma_eol_start_down(s, e - 1, k);
    }
}

/// Replacing one piece of a well-shaped split by a closed line keeps it
/// well-shaped, so splitting the joined text gives back the updated pieces.
pub proof fn lemma_update_piece(ps: Seq<Seq<char>>, i: int, np: Seq<char>)
    requires
        well_shaped(ps),
        0 <= i < ps.len(),
        np.len() > 0,
        forall|j: int| 0 <= j < np.len() - 1 ==> #[trigger] np[j] != '\n',
        i < ps.len() - 1 ==> np.last() == '\n',
    ensures
        well_shaped(ps.update(i, np)),
        pieces(ps.update(i, np).flatten()) == ps.update(i, np),
{
    let qs = ps.update(i, np);
    assert forall|k: int| 0 <= k < qs.len() implies (#[trigger] qs[k]).len() > 0 by {
        if k != i { assert(qs[k] == ps[k]); }
    }
    assert forall|k: int| 0 <= k < qs.len() - 1 implies (#[trigger] qs[k]).last() == '\n' by {
        if k != i { assert(qs[k] == ps[k]); }
    }
    assert forall|k: int, j: int|
        0 <= k < qs.len() && 0 <= j < qs[k].len() - 1 implies #[trigger] qs[k][j] != '\n' by {
        if k != i { assert(qs[k] == ps[k]); }
    }
    crate::text::lemma_pieces_of_flatten(qs);
}

/// The body and line ending of a piece put back together give the piece.
proof fn lemma_piece_split(piece: Seq<char>)
    ensures
        piece.take(body_end(piece)) + piece.skip(body_end(piece)) == piece,
        0 <= body_end(piece) <= piece.len(),
{
    crate::text::lemma_eol_start(piece, piece.len() as int);
    assert(piece.take(body_end(piece)) + piece.skip(body_end(piece)) =~= piece);
}

/// The body of a piece: the piece without its trailing `\r`/`\n` characters.
pub open spec fn piece_body(piece: Seq<char>) -> Seq<char> {
    piece.take(body_end(piece))
}

/// The piece of a task line after its checkbox is toggled.
pub open spec fn toggled_piece(piece: Seq<char>) -> Seq<char> {
    let e = body_end(piece);
    let body = piece.take(e);
    let done = spec_parse_line(body).unwrap().1;
    body.update(spec_bracket_pos(body) + 1, if done { ' ' } else { 'x' }) + piece.skip(e)
}

pub proof fn lemma_toggled_piece(piece: Seq<char>)
    requires
        spec_parse_line(piece_body(piece)) is Some,
        forall|j: int| 0 <= j < piece.len() - 1 ==> #[trigger] piece[j] != '\n',
    ensures
        ({
            let e = body_end(piece);
            let body = piece_body(piece);
            let b = spec_bracket_pos(body);
            let done = spec_parse_line(body).unwrap().1;
            let m = if done { ' ' } else { 'x' };
            let tp = toggled_piece(piece);
            &&& tp.len() == piece.len()
            &&& tp.len() > 0 ==> tp.last() == piece.last()
            &&& forall|j: int| 0 <= j < tp.len() - 1 ==> #[trigger] tp[j] != '\n'
            &&& body_end(tp) == e
            &&& piece_body(tp) == body.update(b + 1, m)
            &&& tp.skip(e) == piece.skip(e)
            &&& spec_parse_line(piece_body(tp)) == Some((spec_parse_line(body).unwrap().0, m != ' ', spec_parse_line(body).unwrap().2))
            &&& spec_bracket_pos(piece_body(tp)) == b
            &&& b + 2 < e
        }),
{
    let e = body_end(piece);
    lemma_piece_split(piece);
    crate::text::lemma_eol_start(piece, piece.len() as int);
    let body = piece.take(e);
    let done = spec_parse_line(body).unwrap().1;
    let b = spec_bracket_pos(body);
    let m = if done { ' ' } else { 'x' };
    lemma_mark_change(body, m);
    assert(b + 2 < body.len()) by {
        lemma_ws_end(body, 0);
        lemma_ws_end(body, ws_end(body, 0) + 1);
    }
    let body1 = body.update(b + 1, m);
    let tp = body1 + piece.skip(e);
    assert(tp == toggled_piece(piece));
    assert forall|j: int| 0 <= j < tp.len() - 1 implies #[trigger] tp[j] != '\n' by {
        if j != b + 1 {
            assert(tp[j] == piece[j]);
        }
    }
    assert forall|x: int| e <= x < tp.len() implies crate::text::is_eol(#[trigger] tp[x]) by {
        assert(tp[x] == piece[x]);
    }
    if e > 0 {
        assert(tp[e - 1] == piece[e - 1]);
    }
    lemma_eol_start_at(tp, e);
    assert(tp.take(e) =~= body1);
    assert(tp.skip(e) =~= piece.skip(e));
    if tp.len() > 0 {
        assert(tp.last() == piece.last());
    }
}

/// A successful toggle replaces line `n`'s piece by its toggled form.
pub proof fn lemma_toggle_pieces(c: Seq<char>, n: int)
    requires
        spec_toggle(c, n) is Some,
    ensures
        pieces(spec_toggle(c, n).unwrap()) == pieces(c).update(n - 1, toggled_piece(pieces(c)[n - 1])),
        spec_toggle(c, n).unwrap() == pieces(c).update(n - 1, toggled_piece(pieces(c)[n - 1])).flatten(),
        well_shaped(pieces(c)),
{
    let ps = pieces(c);
    lemma_pieces_shape(c);
    let piece = ps[n - 1];
    assert forall|j: int| 0 <= j < piece.len() - 1 implies #[trigger] piece[j] != '\n' by {
        assert(ps[n - 1][j] != '\n');
    }
    lemma_toggled_piece(piece);
    lemma_update_piece(ps, n - 1, toggled_piece(piece));
}

/// Toggling a line twice gives back the text, when the box held a space or a
/// lower-case `x`; an upper-case `X` comes back as `x`. The other lines keep
/// their bytes throughout, and the text keeps its number of lines.
pub proof fn law_toggle_twice(c: Seq<char>, n: int)
    requires
        spec_toggle(c, n) is Some,
    ensures
        ({
            let ps = pieces(c);
            let c1 = spec_toggle(c, n).unwrap();
            let body = ps[n - 1].take(body_end(ps[n - 1]));
            let mark = body[spec_bracket_pos(body) + 1];
            &&& pieces(c1).len() == ps.len()
            &&& forall|j: int| 0 <= j < ps.len() && j != n - 1 ==> #[trigger] pieces(c1)[j] == ps[j]
            &&& spec_toggle(c1, n) is Some
            &&& (mark == ' ' || mark == 'x') ==> spec_toggle(c1, n) == Some(c)
            &&& mark == 'X' ==> spec_toggle(c1, n) == Some(
                ps.update(n - 1, body.update(spec_bracket_pos(body) + 1, 'x') + ps[n - 1].skip(body_end(ps[n - 1]))).flatten())
        }),
{
    let ps = pieces(c);
    lemma_toggle_pieces(c, n);
    let piece = ps[n - 1];
    assert forall|j: int| 0 <= j < piece.len() - 1 implies #[trigger] piece[j] != '\n' by {
        assert(ps[n - 1][j] != '\n');
    }
    lemma_toggled_piece(piece);
    let e = body_end(piece);
    let body = piece_body(piece);
    let b = spec_bracket_pos(body);
    let tp = toggled_piece(piece);
    let c1 = spec_toggle(c, n).unwrap();
    let ps1 = pieces(c1);
    assert(ps1[n - 1] == tp);
    assert forall|j: int| 0 <= j < tp.len() - 1 implies #[trigger] tp[j] != '\n' by {}
    lemma_toggled_piece(tp);
    lemma_toggle_pieces(c1, n);
    let body1 = piece_body(tp);
    let m2 = if spec_parse_line(body1).unwrap().1 { ' ' } else { 'x' };
    let tp2 = toggled_piece(tp);
    assert(tp2 == body1.update(b + 1, m2) + piece.skip(e));
    let mark = body[b + 1];
    if mark == ' ' || mark == 'x' {
        assert(body1.update(b + 1, m2) =~= body);
        lemma_piece_split(piece);
        assert(tp2 =~= piece);
        assert(ps1.update(n - 1, tp2) =~= ps);
        crate::text::lemma_pieces_shape(c);
    }
    if mark == 'X' {
        assert(body1.update(b + 1, m2) =~= body.update(b + 1, 'x'));
        assert(ps1.update(n - 1, tp2) =~= ps.update(n - 1, body.update(b + 1, 'x') + piece.skip(e)));
    }
}


/// End of the run of spaces and tabs starting at `i`.
pub open spec fn indent_end(s: Seq<char>, i: int) -> int
    decreases s.len() - i,
{
    if 0 <= i < s.len() && (s[i] == ' ' || s[i] == '\t') {
        indent_end(s, i + 1)
    } else {
        i
    }
}

/// End of the run of spaces starting at `i`.
pub open spec fn space_end(s: Seq<char>, i: int) -> int
    decreases s.len() - i,
{
    if 0 <= i < s.len() && s[i] == ' ' {
        space_end(s, i + 1)
    } else {
        i
    }
}

/// Length of the task prefix of a line: indent (spaces and tabs), bullet,
/// spaces, checkbox and the spaces after it; `None` when the line has no
/// such prefix.
pub open spec fn spec_prefix_len(s: Seq<char>) -> Option<int> {
    let a = indent_end(s, 0);
    if a < s.len() && crate::parser::is_bullet(s[a]) {
        let c = space_end(s, a + 1);
        if c == a + 1 || c + 2 >= s.len() {
            None
        } else if s[c] == '[' && is_mark(s[c + 1]) && s[c + 2] == ']' {
            let d = space_end(s, c + 3);
            if d == c + 3 {
                None
            } else {
                Some(d)
            }
        } else {
            None
        }
    } else {
        None
    }
}

pub proof fn lemma_indent_end(s: Seq<char>, i: int)
    requires
        0 <= i <= s.len(),
    ensures
        i <= indent_end(s, i) <= s.len(),
        forall|k: int| i <= k < indent_end(s, i) ==> (#[trigger] s[k] == ' ' || s[k] == '\t'),
        indent_end(s, i) < s.len() ==> !(s[indent_end(s, i)] == ' ' || s[indent_end(s, i)] == '\t'),
    decreases s.len() - i,
{
    if i < s.len() && (s[i] == ' ' || s[i] == '\t') {
        lemma_indent_end(s, i + 1);
    }
}

pub proof fn lemma_space_end(s: Seq<char>, i: int)
    requires
        0 <= i <= s.len(),
    ensures
        i <= space_end(s, i) <= s.len(),
        forall|k: int| i <= k < space_end(s, i) ==> #[trigger] s[k] == ' ',
        space_end(s, i) < s.len() ==> s[space_end(s, i)] != ' ',
    decreases s.len() - i,
{
    if i < s.len() && s[i] == ' ' {
        lemma_space_end(s, i + 1);
    }
}

fn skip_spaces(cs: &Vec<char>, i: usize) -> (j: usize)
    requires
        i <= cs@.len(),
    ensures
        j == space_end(cs@, i as int),
        i <= j <= cs@.len(),
{
    let mut j = i;
    while j < cs.len() && cs[j] == ' '
        invariant
            i <= j <= cs@.len(),
            space_end(cs@, i as int) == space_end(cs@, j as int),
        decreases cs@.len() - j,
    {
        j += 1;
    }
    j
}

/// Length of the task prefix (indent, bullet, spaces, checkbox, spaces) of
/// a line, or `None` when the line has none.
pub fn task_prefix_len(cs: &Vec<char>) -> (res: Option<usize>)
    ensures
        match res {
            Some(k) => spec_prefix_len(cs@) == Some(k as int),
            None => spec_prefix_len(cs@) is None,
        },
{
    let n = cs.len();
    let mut i: usize = 0;
    while i < n && (cs[i] == ' ' || cs[i] == '\t')
        invariant
            i <= n == cs@.len(),
            indent_end(cs@, 0) == indent_end(cs@, i as int),
        decreases n - i,
    {
        i += 1;
    }
    if i >= n || !(cs[i] == '-' || cs[i] == '*' || cs[i] == '+') {
        return None;
    }
    let after_bullet = i + 1;
    let c = skip_spaces(cs, after_bullet);
    if c == after_bullet || c >= n || n - c <= 2 {
        return None;
    }
    if !(cs[c] == '[' && (cs[c + 1] == ' ' || cs[c + 1] == 'x' || cs[c + 1] == 'X') && cs[c + 2] == ']') {
        return None;
    }
    let d = skip_spaces(cs, c + 3);
    if d == c + 3 {
        return None;
    }
    Some(d)
}

/// The result of replacing the text of line `n` by `t`: the line's task
/// prefix, then `t`, then its original line ending; `None` when there is
/// no such line or it has no task prefix.
pub open spec fn spec_replace_text(c: Seq<char>, n: int, t: Seq<char>) -> Option<Seq<char>> {
    let ps = pieces(c);
    if 1 <= n <= ps.len() {
        let piece = ps[n - 1];
        let e = body_end(piece);
        let body = piece.take(e);
        match spec_prefix_len(body) {
            Some(k) => Some(ps.update(n - 1, body.take(k) + t + piece.skip(e)).flatten()),
            None => None,
        }
    } else {
        None
    }
}

/// `e` is `CommandFailed` with message `msg`.
pub open spec fn is_command_failed(e: AppError, msg: Seq<char>) -> bool {
    e matches AppError::CommandFailed(m) && m@ == msg
}

/// Replace the text of the task on line `line_number` (1-based), keeping its
/// indent, bullet, checkbox and the spaces after it, and its line ending.
///
/// The new text is trimmed; it is refused when empty or when it holds a
/// line break. Fails with `NotATaskLine` when the line does not exist or
/// has no task prefix.
pub fn update_text_content(content: &str, line_number: usize, new_text: &str, path: &str) -> (res: Result<String, AppError>)
    ensures
        ({
            let t = crate::text::spec_trim(new_text@);
            match res {
                Ok(s) => t.len() > 0 && !t.contains('\n') && !t.contains('\r') && spec_replace_text(content@, line_number as int, t) == Some(s@),
                Err(e) => if t.len() == 0 {
                    is_command_failed(e, "task text cannot be empty"@)
                } else if t.contains('\n') || t.contains('\r') {
                    is_command_failed(e, "task text cannot contain newlines"@)
                } else {
                    spec_replace_text(content@, line_number as int, t) is None && is_not_a_task_line(e, path@, line_number as int)
                },
            }
        }),
{
    let t = crate::text::trimmed_chars(new_text);
    if t.len() == 0 {
        return Err(AppError::CommandFailed(String::from_str("task text cannot be empty")));
    }
    if crate::text::contains_char(&t, '\n') || crate::text::contains_char(&t, '\r') {
        return Err(AppError::CommandFailed(String::from_str("task text cannot contain newlines")));
    }
    let cs = chars_of(content);
    let mut ps = split_pieces(&cs);
    if line_number == 0 || line_number > ps.len() {
        return Err(not_a_task_line(path, line_number));
    }
    let idx = line_number - 1;
    let piece = ps[idx].clone();
    let e = body_end_of(&piece);
    let body = crate::text::sub_chars(&piece, 0, e);
    proof {
        assert(piece@ == views(ps@)[idx as int]);
        assert(body@ =~= piece@.take(e as int));
    }
    match task_prefix_len(&body) {
        None => Err(not_a_task_line(path, line_number)),
        Some(k) => {
            proof {
                lemma_prefix_in_body(body@);
            }
            let mut newp = crate::text::sub_chars(&body, 0, k);
            extend_range(&mut newp, &t, 0, t.len());
            extend_range(&mut newp, &piece, e, piece.len());
            let ghost old_views = views(ps@);
            proof {
                assert(t@.subrange(0, t@.len() as int) =~= t@);
                assert(piece@.subrange(e as int, piece@.len() as int) =~= piece@.skip(e as int));
                assert(body@.subrange(0, k as int) =~= body@.take(k as int));
            }
            ps.set(idx, newp);
            proof {
                assert(views(ps@) =~= old_views.update(idx as int, newp@));
            }
            Ok(join_pieces(&ps))
        },
    }
}

pub proof fn lemma_prefix_in_body(s: Seq<char>)
    requires
        spec_prefix_len(s) is Some,
    ensures
        spec_prefix_len(s).unwrap() <= s.len(),
{
    lemma_indent_end(s, 0);
    let a = indent_end(s, 0);
    lemma_space_end(s, a + 1);
    let c = space_end(s, a + 1);
    lemma_space_end(s, c + 3);
}

/// The text after appending the open task `- [ ] <text>` (text trimmed):
/// a line feed first when the text does not end in one, and a `# Inbox`
/// heading when the text is empty.
pub open spec fn spec_append_task(existing: Seq<char>, text: Seq<char>) -> Seq<char> {
    let t = crate::text::spec_trim(text);
    let base = if existing.len() > 0 && existing.last() != '\n' {
        existing.push('\n')
    } else {
        existing
    };
    let base2 = if base.len() == 0 {
        "# Inbox\n\n"@
    } else {
        base
    };
    base2 + "- [ ] "@ + t + seq!['\n']
}

/// Append `- [ ] <text>` to a file's text (see `spec_append_task`).
pub fn append_task_content(existing: &str, text: &str) -> (out: String)
    ensures
        out@ == spec_append_task(existing@, text@),
{
    let t = crate::text::trimmed_chars(text);
    let mut cs = chars_of(existing);
    if cs.len() > 0 && cs[cs.len() - 1] != '\n' {
        cs.push('\n');
    }
    if cs.len() == 0 {
        crate::text::extend_str(&mut cs, "# Inbox\n\n");
    }
    crate::text::extend_str(&mut cs, "- [ ] ");
    extend_range(&mut cs, &t, 0, t.len());
    cs.push('\n');
    proof {
        assert(t@.subrange(0, t@.len() as int) =~= t@);
    }
    crate::text::string_of(&cs, 0, cs.len())
}


/// Label written when a quadrant heading is created.
pub open spec fn spec_quadrant_label(q: Quadrant) -> Seq<char> {
    match q {
        Quadrant::UrgentImportant => "🔴 紧急+重要"@,
        Quadrant::NotUrgentImportant => "🟡 重要不紧急"@,
        Quadrant::UrgentNotImportant => "🟠 紧急不重要"@,
        Quadrant::NotUrgentNotImportant => "🟢 不紧急不重要"@,
    }
}

/// The emoji and name written when a quadrant heading is created.
pub fn quadrant_header_label(q: Quadrant) -> (l: &'static str)
    ensures
        l@ == spec_quadrant_label(q),
{
    match q {
        Quadrant::UrgentImportant => "🔴 紧急+重要",
        Quadrant::NotUrgentImportant => "🟡 重要不紧急",
        Quadrant::UrgentNotImportant => "🟠 紧急不重要",
        Quadrant::NotUrgentNotImportant => "🟢 不紧急不重要",
    }
}

/// The number of `#` a line starts with once leading white space is removed.
pub open spec fn heading_level(line: Seq<char>) -> int {
    hash_end(line, ws_end(line, 0)) - ws_end(line, 0)
}

/// Whether a line is a heading of level at most `level` (hashes followed by a space).
pub open spec fn is_section_stop(line: Seq<char>, level: int) -> bool {
    let a = ws_end(line, 0);
    let k = hash_end(line, a) - a;
    k > 0 && k <= level && a + k < line.len() && line[a + k] == ' '
}

/// Whether a line holds nothing but white space.
pub open spec fn is_blank(line: Seq<char>) -> bool {
    forall|i: int| 0 <= i < line.len() ==> is_ws(#[trigger] line[i])
}

/// Number of characters of the first `j` pieces.
pub open spec fn offset(ps: Seq<Seq<char>>, j: int) -> int {
    ps.take(j).flatten().len() as int
}

/// Scanning from piece `j`, the end of the last non-blank line before the
/// next heading of level at most `level` (or the end of the text).
pub open spec fn section_end(ps: Seq<Seq<char>>, level: int, j: int, last: int) -> int
    decreases ps.len() - j,
{
    if j < 0 || j >= ps.len() {
        last
    } else if is_section_stop(ps[j], level) {
        last
    } else {
        section_end(ps, level, j + 1, if !is_blank(ps[j]) { offset(ps, j + 1) } else { last })
    }
}

/// Where a new task goes in the section headed by piece `idx`: right after
/// its last non-blank line, or right after the heading when it has none.
pub open spec fn spec_insertion_point(ps: Seq<Seq<char>>, idx: int) -> int {
    if idx >= ps.len() {
        ps.flatten().len() as int
    } else {
        section_end(ps, heading_level(ps[idx]), idx + 1, offset(ps, idx + 1))
    }
}

proof fn lemma_offset_step(ps: Seq<Seq<char>>, j: int)
    requires
        0 <= j < ps.len(),
    ensures
        offset(ps, j + 1) == offset(ps, j) + ps[j].len(),
{
    assert(ps.take(j + 1) =~= ps.take(j).push(ps[j]));
    ps.take(j).lemma_flatten_push(ps[j]);
}

proof fn lemma_offset_bound(ps: Seq<Seq<char>>, j: int)
    requires
        0 <= j <= ps.len(),
    ensures
        0 <= offset(ps, j) <= ps.flatten().len(),
{
    vstd::seq_lib::lemma_flatten_concat(ps.take(j), ps.skip(j));
    assert(ps.take(j) + ps.skip(j) =~= ps);
}

proof fn lemma_section_end_bound(ps: Seq<Seq<char>>, level: int, j: int, last: int)
    requires
        0 <= last <= ps.flatten().len(),
    ensures
        0 <= section_end(ps, level, j, last) <= ps.flatten().len(),
    decreases ps.len() - j,
{
    if 0 <= j < ps.len() && !is_section_stop(ps[j], level) {
        lemma_offset_bound(ps, j + 1);
        lemma_section_end_bound(ps, level, j + 1, if !is_blank(ps[j]) { offset(ps, j + 1) } else { last });
    }
}

fn is_blank_chars(cs: &Vec<char>) -> (b: bool)
    ensures
        b == is_blank(cs@),
{
    let mut i: usize = 0;
    while i < cs.len()
        invariant
            i <= cs@.len(),
            forall|k: int| 0 <= k < i ==> is_ws(#[trigger] cs@[k]),
        decreases cs@.len() - i,
    {
        if !crate::text::is_whitespace(cs[i]) {
            return false;
        }
        i += 1;
    }
    true
}

fn hash_run(cs: &Vec<char>, a: usize) -> (h: usize)
    requires
        a <= cs@.len(),
    ensures
        h == hash_end(cs@, a as int),
        a <= h <= cs@.len(),
{
    let mut h = a;
    while h < cs.len() && cs[h] == '#'
        invariant
            a <= h <= cs@.len(),
            hash_end(cs@, a as int) == hash_end(cs@, h as int),
        decreases cs@.len() - h,
    {
        h += 1;
    }
    h
}

fn section_stop(cs: &Vec<char>, level: usize) -> (b: bool)
    ensures
        b == is_section_stop(cs@, level as int),
{
    let a = crate::text::skip_ws(cs, 0);
    let h = hash_run(cs, a);
    let k = h - a;
    k > 0 && k <= level && h < cs.len() && cs[h] == ' '
}

/// Character offset in the joined text where a task for the section headed
/// by piece `idx` is inserted (see `spec_insertion_point`).
pub fn find_section_insertion_point(ps: &Vec<Vec<char>>, idx: usize) -> (r: usize)
    requires
        views(ps@).flatten().len() <= usize::MAX,
    ensures
        r == spec_insertion_point(views(ps@), idx as int),
        r <= views(ps@).flatten().len(),
{
    let ghost vs = views(ps@);
    proof {
        lemma_offset_bound(vs, vs.len() as int);
        assert(vs.take(vs.len() as int) =~= vs);
    }
    let total = total_len(ps);
    if idx >= ps.len() {
        return total;
    }
    let header = &ps[idx];
    let a = crate::text::skip_ws(header, 0);
    let level = hash_run(header, a) - a;
    let n = ps.len();
    let mut offset_j: usize = 0;
    let mut j: usize = 0;
    while j <= idx
        invariant
            n == ps@.len(),
            j <= idx + 1,
            idx < vs.len(),
            vs.len() == ps@.len(),
            vs == views(ps@),
            offset_j == offset(vs, j as int),
            total == vs.flatten().len(),
        decreases idx + 1 - j,
    {
        proof {
            lemma_offset_step(vs, j as int);
            lemma_offset_bound(vs, j + 1);
        }
        offset_j = offset_j + ps[j].len();
        j += 1;
    }
    proof {
        lemma_offset_bound(vs, j as int);
    }
    let mut last = offset_j;
    while j < ps.len()
        invariant
            idx < j <= vs.len(),
            vs.len() == ps@.len(),
            vs == views(ps@),
            offset_j == offset(vs, j as int),
            last <= total == vs.flatten().len(),
            level == heading_level(vs[idx as int]),
            section_end(vs, level as int, idx + 1, offset(vs, idx + 1)) == section_end(vs, level as int, j as int, last as int),
        decreases vs.len() - j,
    {
        if section_stop(&ps[j], level) {
            return last;
        }
        proof {
            lemma_offset_step(vs, j as int);
            lemma_offset_bound(vs, j + 1);
        }
        let next = offset_j + ps[j].len();
        if !is_blank_chars(&ps[j]) {
            last = next;
        }
        offset_j = next;
        j += 1;
    }
    last
}

/// Total number of characters in all pieces.
fn total_len(ps: &Vec<Vec<char>>) -> (n: usize)
    requires
        views(ps@).flatten().len() <= usize::MAX,
    ensures
        n == views(ps@).flatten().len(),
{
    let ghost vs = views(ps@);
    let mut n: usize = 0;
    let mut j: usize = 0;
    while j < ps.len()
        invariant
            j <= vs.len(),
            vs == views(ps@),
            n == offset(vs, j as int),
            vs.flatten().len() <= usize::MAX,
        decreases vs.len() - j,
    {
        proof {
            lemma_offset_step(vs, j as int);
            lemma_offset_bound(vs, j + 1);
        }
        n = n + ps[j].len();
        j += 1;
    }
    proof {
        assert(vs.take(vs.len() as int) =~= vs);
    }
    n
}


/// The first piece at or after `i` whose body is a heading naming quadrant `q`, or -1.
pub open spec fn first_quadrant_heading(ps: Seq<Seq<char>>, q: Quadrant, i: int) -> int
    decreases ps.len() - i,
{
    if i < 0 || i >= ps.len() {
        -1
    } else if spec_heading_quadrant(piece_body(ps[i])) == Some(Some(q)) {
        i
    } else {
        first_quadrant_heading(ps, q, i + 1)
    }
}

/// Whether a text ends with two line feeds.
pub open spec fn ends_with_blank_line(s: Seq<char>) -> bool {
    s.len() >= 2 && s[s.len() - 2] == '\n' && s[s.len() - 1] == '\n'
}

/// The text with `- [ ] <t>` inserted at character offset `ins`, after a
/// line feed when the text before `ins` does not end in one.
pub open spec fn spec_insert_task_at(existing: Seq<char>, t: Seq<char>, ins: int) -> Seq<char> {
    let head = existing.take(ins);
    let head2 = if head.len() > 0 && head.last() == '\n' { head } else { head.push('\n') };
    head2 + "- [ ] "@ + t + seq!['\n'] + existing.skip(ins)
}

/// The text with a new quadrant section holding `- [ ] <t>` appended,
/// separated from what precedes it by a blank line.
pub open spec fn spec_new_section(existing: Seq<char>, t: Seq<char>, q: Quadrant) -> Seq<char> {
    let s1 = if existing.len() > 0 && existing.last() != '\n' { existing.push('\n') } else { existing };
    let s2 = if s1.len() > 0 && !ends_with_blank_line(s1) { s1.push('\n') } else { s1 };
    s2 + "## "@ + spec_quadrant_label(q) + "\n\n- [ ] "@ + t + seq!['\n']
}

/// The text after adding an open task to the section of quadrant `q`, or
/// `Err(q)` when the file has no heading for it and headings may not be
/// created. Without a quadrant the task is appended as by `spec_append_task`.
///
/// With a heading, the task goes right after the section's last non-blank
/// line (see `spec_insertion_point`); without one, a new section is appended.
pub open spec fn spec_append_to_quadrant(existing: Seq<char>, text: Seq<char>, quadrant: Option<Quadrant>, auto_create: bool) -> Result<Seq<char>, Quadrant> {
    match quadrant {
        None => Ok(spec_append_task(existing, text)),
        Some(q) => {
            let t = crate::text::spec_trim(text);
            let ps = pieces(existing);
            let idx = first_quadrant_heading(ps, q, 0);
            if idx >= 0 {
                Ok(spec_insert_task_at(existing, t, spec_insertion_point(ps, idx)))
            } else if !auto_create {
                Err(q)
            } else {
                Ok(spec_new_section(existing, t, q))
            }
        },
    }
}

fn insert_task_at(cs: &Vec<char>, t: &Vec<char>, ins: usize) -> (out: Vec<char>)
    requires
        ins <= cs@.len(),
    ensures
        out@ == spec_insert_task_at(cs@, t@, ins as int),
{
    let mut out: Vec<char> = Vec::new();
    extend_range(&mut out, cs, 0, ins);
    proof {
        assert(cs@.subrange(0, ins as int) =~= cs@.take(ins as int));
    }
    if !(out.len() > 0 && out[out.len() - 1] == '\n') {
        out.push('\n');
    }
    crate::text::extend_str(&mut out, "- [ ] ");
    extend_range(&mut out, t, 0, t.len());
    out.push('\n');
    extend_range(&mut out, cs, ins, cs.len());
    proof {
        assert(t@.subrange(0, t@.len() as int) =~= t@);
        assert(cs@.subrange(ins as int, cs@.len() as int) =~= cs@.skip(ins as int));
    }
    out
}

fn new_section(cs: &Vec<char>, t: &Vec<char>, q: Quadrant) -> (out: Vec<char>)
    ensures
        out@ == spec_new_section(cs@, t@, q),
{
    let mut out: Vec<char> = Vec::new();
    extend_range(&mut out, cs, 0, cs.len());
    proof {
        assert(cs@.subrange(0, cs@.len() as int) =~= cs@);
    }
    if out.len() > 0 && out[out.len() - 1] != '\n' {
        out.push('\n');
    }
    if out.len() > 0 && !(out.len() >= 2 && out[out.len() - 2] == '\n' && out[out.len() - 1] == '\n') {
        out.push('\n');
    }
    crate::text::extend_str(&mut out, "## ");
    crate::text::extend_str(&mut out, quadrant_header_label(q));
    crate::text::extend_str(&mut out, "\n\n- [ ] ");
    extend_range(&mut out, t, 0, t.len());
    out.push('\n');
    proof {
        assert(t@.subrange(0, t@.len() as int) =~= t@);
    }
    out
}

/// Index of the first piece whose body is a heading naming `q`.
fn find_quadrant_heading(ps: &Vec<Vec<char>>, q: Quadrant) -> (r: Option<usize>)
    ensures
        match r {
            Some(k) => k == first_quadrant_heading(views(ps@), q, 0) && k < ps@.len(),
            None => first_quadrant_heading(views(ps@), q, 0) == -1,
        },
{
    let ghost vs = views(ps@);
    let mut i: usize = 0;
    while i < ps.len()
        invariant
            i <= vs.len(),
            vs == views(ps@),
            first_quadrant_heading(vs, q, 0) == first_quadrant_heading(vs, q, i as int),
        decreases vs.len() - i,
    {
        let e = body_end_of(&ps[i]);
        let body = crate::text::sub_chars(&ps[i], 0, e);
        proof {
            assert(ps@[i as int]@ == vs[i as int]);
            assert(body@ =~= piece_body(vs[i as int]));
        }
        if heading_quadrant(&body) == Some(Some(q)) {
            return Some(i);
        }
        i += 1;
    }
    None
}

/// Add a task to the section of a quadrant (see `spec_append_to_quadrant`);
/// fails with `QuadrantHeaderMissing` when the heading is absent and may not be created.
pub fn append_to_quadrant_content(existing: &str, text: &str, quadrant: Option<Quadrant>, auto_create: bool) -> (res: Result<String, AppError>)
    ensures
        match res {
            Ok(s) => spec_append_to_quadrant(existing@, text@, quadrant, auto_create) == Ok::<Seq<char>, Quadrant>(s@),
            Err(e) => spec_append_to_quadrant(existing@, text@, quadrant, auto_create) is Err
                && e == AppError::QuadrantHeaderMissing(spec_append_to_quadrant(existing@, text@, quadrant, auto_create)->Err_0),
        },
{
    let q = match quadrant {
        None => return Ok(append_task_content(existing, text)),
        Some(q) => q,
    };
    let t = crate::text::trimmed_chars(text);
    let cs = chars_of(existing);
    let ps = split_pieces(&cs);
    proof {
        lemma_pieces_shape(cs@);
    }
    let total = cs.len();
    assert(views(ps@).flatten().len() == total);
    let out = match find_quadrant_heading(&ps, q) {
        Some(idx) => {
            let ins = find_section_insertion_point(&ps, idx);
            let o = insert_task_at(&cs, &t, ins);
            assert(spec_append_to_quadrant(existing@, text@, quadrant, auto_create) == Ok::<Seq<char>, Quadrant>(o@));
            o
        },
        None => {
            if !auto_create {
                return Err(AppError::QuadrantHeaderMissing(q));
            }
            let o = new_section(&cs, &t, q);
            assert(spec_append_to_quadrant(existing@, text@, quadrant, auto_create) == Ok::<Seq<char>, Quadrant>(o@));
            o
        },
    };
    let r = crate::text::string_of(&out, 0, out.len());
    assert(r@ =~= out@);
    Ok(r)
}


/// The hash recorded for a line: `sha256:` and the hex SHA-256 of its UTF-8 bytes.
pub open spec fn spec_line_hash(raw: Seq<char>) -> Seq<char> {
    "sha256:"@ + spec_hex(sha256_of(vstd::utf8::encode_utf8(raw)))
}

/// `sha256:` followed by the hex SHA-256 of the line's UTF-8 bytes.
pub fn line_hash(raw: &str) -> (h: String)
    ensures
        h@ == spec_line_hash(raw@),
{
    let digest = hash_content(raw.as_bytes());
    let hx = hex_encode(digest.as_slice());
    let mut h = String::from_str("sha256:");
    h.append(hx.as_str());
    h
}

fn piece_hash(piece: &Vec<char>) -> (h: String)
    ensures
        h@ == spec_line_hash(piece@),
{
    let s = crate::text::string_of(piece, 0, piece.len());
    assert(s@ =~= piece@);
    line_hash(s.as_str())
}

/// `e` is `HistoryHashMismatch` for the given event, file and line.
pub open spec fn is_hash_mismatch(e: AppError, event_id: Seq<char>, file: Seq<char>, line: int) -> bool {
    e matches AppError::HistoryHashMismatch { event_id: i, file: f, line: l } && i@ == event_id && f@ == file && l == line
}

fn hash_mismatch(event_id: &str, file: &str, line: usize) -> (e: AppError)
    ensures
        is_hash_mismatch(e, event_id@, file@, line as int),
{
    AppError::HistoryHashMismatch { event_id: String::from_str(event_id), file: String::from_str(file), line }
}

/// Whether line `n` (1-based) exists and its recorded hash is `expected`.
pub open spec fn line_hash_matches(c: Seq<char>, n: int, expected: Seq<char>) -> bool {
    1 <= n <= pieces(c).len() && spec_line_hash(pieces(c)[n - 1]) == expected
}

/// Split `content` and check that line `line` exists with hash `expected`.
fn guarded_pieces(content: &str, line: usize, expected: &str) -> (r: (Vec<Vec<char>>, bool))
    ensures
        views(r.0@) == pieces(content@),
        r.1 == line_hash_matches(content@, line as int, expected@),
        r.1 ==> 1 <= line <= r.0@.len(),
{
    let cs = chars_of(content);
    let ps = split_pieces(&cs);
    if line == 0 || line > ps.len() {
        return (ps, false);
    }
    let h = piece_hash(&ps[line - 1]);
    let exp = String::from_str(expected);
    proof {
        assert(ps@[line - 1]@ == views(ps@)[line - 1]);
    }
    let ok = h == exp;
    (ps, ok)
}

/// Replace line `line` by `new_raw`, provided its hash is `expected_hash`;
/// otherwise `HistoryHashMismatch`.
pub fn replace_line_if_hash(content: &str, line: usize, expected_hash: &str, new_raw: &str, event_id: &str, file: &str) -> (res: Result<String, AppError>)
    ensures
        match res {
            Ok(s) => line_hash_matches(content@, line as int, expected_hash@)
                && s@ == pieces(content@).update(line - 1, new_raw@).flatten(),
            Err(e) => !line_hash_matches(content@, line as int, expected_hash@)
                && is_hash_mismatch(e, event_id@, file@, line as int),
        },
{
    let (mut ps, ok) = guarded_pieces(content, line, expected_hash);
    if !ok {
        return Err(hash_mismatch(event_id, file, line));
    }
    let ghost old_views = views(ps@);
    let np = chars_of(new_raw);
    ps.set(line - 1, np);
    proof {
        assert(views(ps@) =~= old_views.update(line - 1, new_raw@));
    }
    Ok(join_pieces(&ps))
}

/// Remove line `line`, provided its hash is `expected_hash`; otherwise `HistoryHashMismatch`.
pub fn remove_line_if_hash(content: &str, line: usize, expected_hash: &str, event_id: &str, file: &str) -> (res: Result<String, AppError>)
    ensures
        match res {
            Ok(s) => line_hash_matches(content@, line as int, expected_hash@)
                && s@ == pieces(content@).remove(line - 1).flatten(),
            Err(e) => !line_hash_matches(content@, line as int, expected_hash@)
                && is_hash_mismatch(e, event_id@, file@, line as int),
        },
{
    let (mut ps, ok) = guarded_pieces(content, line, expected_hash);
    if !ok {
        return Err(hash_mismatch(event_id, file, line));
    }
    let ghost old_views = views(ps@);
    ps.remove(line - 1);
    proof {
        assert(views(ps@) =~= old_views.remove(line - 1));
    }
    Ok(join_pieces(&ps))
}

/// Where `insert_line_at` puts line `n`: index `n - 1`, clamped to the number of lines.
pub open spec fn insert_index(len: int, n: int) -> int {
    if n <= 0 {
        0
    } else if n - 1 > len {
        len
    } else {
        n - 1
    }
}

/// The text with `raw` inserted as line `n` (1-based, clamped to the end).
/// A last line without a line feed gets one before a line is added after
/// it, and a raw line without a line feed gets one when lines follow it.
pub open spec fn spec_insert_line(c: Seq<char>, n: int, raw: Seq<char>) -> Seq<char> {
    let ps = pieces(c);
    let idx = insert_index(ps.len() as int, n);
    let ps2 = if idx == ps.len() && ps.len() > 0 && ps.last().last() != '\n' {
        ps.update(ps.len() - 1, ps.last().push('\n'))
    } else {
        ps
    };
    let r2 = if idx < ps.len() && (raw.len() == 0 || raw.last() != '\n') { raw.push('\n') } else { raw };
    ps2.insert(idx, r2).flatten()
}

/// Insert `raw` as line `line` (see `spec_insert_line`).
pub fn insert_line_at(content: &str, line: usize, raw: &str) -> (s: String)
    ensures
        s@ == spec_insert_line(content@, line as int, raw@),
{
    let cs = chars_of(content);
    let mut ps = split_pieces(&cs);
    let n = ps.len();
    let idx = if line == 0 { 0 } else if line - 1 > n { n } else { line - 1 };
    let ghost v0 = views(ps@);
    proof {
        lemma_pieces_shape(cs@);
    }
    if idx == n && n > 0 && ps[n - 1].len() > 0 && ps[n - 1][ps[n - 1].len() - 1] != '\n' {
        let mut last = ps[n - 1].clone();
        proof {
            assert(last@ == v0[n - 1]);
        }
        last.push('\n');
        ps.set(n - 1, last);
        proof {
            assert(views(ps@) =~= v0.update(n - 1, v0.last().push('\n')));
        }
    } else {
        proof {
            if idx == n && n > 0 {
                assert(ps@[n - 1]@ == v0[n - 1]);
                assert(v0[n - 1].len() > 0);
            }
        }
    }
    let ghost v1 = views(ps@);
    let mut r = chars_of(raw);
    if idx < n && (r.len() == 0 || r[r.len() - 1] != '\n') {
        r.push('\n');
    }
    ps.insert(idx, r);
    proof {
        assert(views(ps@) =~= v1.insert(idx as int, r@));
    }
    join_pieces(&ps)
}

/// Result of removing a task line: the new text and the line removed.
pub struct RemoveResult {
    pub content: String,
    pub removed: LineSnapshot,
}

/// Remove the task on line `line_number` (1-based), after checking that the
/// line is a task line; the snapshot records the removed line (without a quadrant).
pub fn remove_task_line(content: &str, line_number: usize, path: &str) -> (res: Result<RemoveResult, AppError>)
    ensures
        ({
            let ps = pieces(content@);
            let ok = 1 <= line_number <= ps.len() && spec_parse_line(piece_body(ps[line_number - 1])) is Some;
            match res {
                Ok(r) => {
                    &&& ok
                    &&& r.content@ == ps.remove(line_number - 1).flatten()
                    &&& r.removed.line == line_number
                    &&& r.removed.raw@ == ps[line_number - 1]
                    &&& r.removed.hash@ == spec_line_hash(ps[line_number - 1])
                    &&& r.removed.state matches Some(st)
                    &&& st.done == spec_parse_line(piece_body(ps[line_number - 1])).unwrap().1
                    &&& st.text@ == spec_parse_line(piece_body(ps[line_number - 1])).unwrap().2
                    &&& st.quadrant is None
                },
                Err(e) => !ok && is_not_a_task_line(e, path@, line_number as int),
            }
        }),
{
    let cs = chars_of(content);
    let mut ps = split_pieces(&cs);
    if line_number == 0 || line_number > ps.len() {
        return Err(not_a_task_line(path, line_number));
    }
    let idx = line_number - 1;
    let piece = ps[idx].clone();
    let e = body_end_of(&piece);
    let body = crate::text::sub_chars(&piece, 0, e);
    proof {
        assert(piece@ == views(ps@)[idx as int]);
        assert(body@ =~= piece@.take(e as int));
    }
    match parse_chars(&body) {
        None => Err(not_a_task_line(path, line_number)),
        Some(parsed) => {
            let raw = crate::text::string_of(&piece, 0, piece.len());
            assert(raw@ =~= piece@);
            let hash = line_hash(raw.as_str());
            let ghost old_views = views(ps@);
            ps.remove(idx);
            proof {
                assert(views(ps@) =~= old_views.remove(idx as int));
            }
            let removed = LineSnapshot {
                line: line_number,
                state: Some(TaskLineState { done: parsed.completed, text: parsed.text, quadrant: None }),
                raw,
                hash,
            };
            Ok(RemoveResult { content: join_pieces(&ps), removed })
        },
    }
}

} // verus!
