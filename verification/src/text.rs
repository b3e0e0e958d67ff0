//! Character-level helpers shared by the task grammar and the file edits.

use vstd::prelude::*;

verus! {

/// `String::push` appends one character.
pub assume_specification[ String::push ](s: &mut String, ch: char)
    ensures
        final(s)@ == old(s)@.push(ch),
;

/// The characters of `s`, in order.
pub fn chars_of(s: &str) -> (out: Vec<char>)
    ensures
        out@ == s@,
{
    let mut out: Vec<char> = Vec::new();
    for c in it: s.chars()
        invariant
            out@ == it.seq().subrange(0, it.index() as int),
            it.seq() == s@,
    {
        out.push(c);
    }
    out
}

/// A `String` holding the characters `cs[from..to]`.
pub fn string_of(cs: &Vec<char>, from: usize, to: usize) -> (out: String)
    requires
        from <= to <= cs@.len(),
    ensures
        out@ == cs@.subrange(from as int, to as int),
{
    let mut out = String::new();
    let mut i = from;
    while i < to
        invariant
            from <= i <= to <= cs@.len(),
            out@ == cs@.subrange(from as int, i as int),
        decreases to - i,
    {
        out.push(cs[i]);
        i += 1;
    }
    out
}


/// Unicode `White_Space`: the characters that `char::is_whitespace` accepts
/// and that `\s` stands for in a Unicode-aware pattern.
pub open spec fn is_ws(c: char) -> bool {
    ||| ('\u{9}' <= c && c <= '\u{d}')
    ||| c == ' '
    ||| c == '\u{85}'
    ||| c == '\u{a0}'
    ||| c == '\u{1680}'
    ||| ('\u{2000}' <= c && c <= '\u{200a}')
    ||| c == '\u{2028}'
    ||| c == '\u{2029}'
    ||| c == '\u{202f}'
    ||| c == '\u{205f}'
    ||| c == '\u{3000}'
}

/// Whether `c` is Unicode white space.
pub fn is_whitespace(c: char) -> (b: bool)
    ensures
        b == is_ws(c),
{
    ('\u{9}' <= c && c <= '\u{d}') || c == ' ' || c == '\u{85}' || c == '\u{a0}' || c == '\u{1680}'
        || ('\u{2000}' <= c && c <= '\u{200a}') || c == '\u{2028}' || c == '\u{2029}'
        || c == '\u{202f}' || c == '\u{205f}' || c == '\u{3000}'
}

/// The end of the run of white space that starts at `i`.
pub open spec fn ws_end(s: Seq<char>, i: int) -> int
    decreases s.len() - i,
{
    if 0 <= i < s.len() && is_ws(s[i]) {
        ws_end(s, i + 1)
    } else {
        i
    }
}

/// The start of the run of white space that ends at `e`.
pub open spec fn ws_start_back(s: Seq<char>, e: int) -> int
    decreases e,
{
    if 0 < e <= s.len() && is_ws(s[e - 1]) {
        ws_start_back(s, e - 1)
    } else {
        e
    }
}

pub proof fn lemma_ws_end(s: Seq<char>, i: int)
    requires
        0 <= i <= s.len(),
    ensures
        i <= ws_end(s, i) <= s.len(),
        forall|k: int| i <= k < ws_end(s, i) ==> is_ws(#[trigger] s[k]),
        ws_end(s, i) < s.len() ==> !is_ws(s[ws_end(s, i)]),
    decreases s.len() - i,
{
    if i < s.len() && is_ws(s[i]) {
        lemma_ws_end(s, i + 1);
    }
}

pub proof fn lemma_ws_start_back(s: Seq<char>, e: int)
    requires
        0 <= e <= s.len(),
    ensures
        0 <= ws_start_back(s, e) <= e,
        forall|k: int| ws_start_back(s, e) <= k < e ==> is_ws(#[trigger] s[k]),
        ws_start_back(s, e) > 0 ==> !is_ws(s[ws_start_back(s, e) - 1]),
    decreases e,
{
    if 0 < e && is_ws(s[e - 1]) {
        lemma_ws_start_back(s, e - 1);
    }
}

/// Index of the end of the white-space run starting at `i` in `cs`.
pub fn skip_ws(cs: &Vec<char>, i: usize) -> (j: usize)
    requires
        i <= cs@.len(),
    ensures
        j == ws_end(cs@, i as int),
        i <= j <= cs@.len(),
{
    let mut j = i;
    while j < cs.len() && is_whitespace(cs[j])
        invariant
            i <= j <= cs@.len(),
            ws_end(cs@, i as int) == ws_end(cs@, j as int),
        decreases cs@.len() - j,
    {
        j += 1;
    }
    j
}

/// Index of the start of the white-space run that ends at `e` in `cs`.
pub fn skip_ws_back(cs: &Vec<char>, e: usize) -> (j: usize)
    requires
        e <= cs@.len(),
    ensures
        j == ws_start_back(cs@, e as int),
        j <= e,
{
    let mut j = e;
    while j > 0 && is_whitespace(cs[j - 1])
        invariant
            j <= e <= cs@.len(),
            ws_start_back(cs@, e as int) == ws_start_back(cs@, j as int),
        decreases j,
    {
        j -= 1;
    }
    j
}


/// Index of the first line feed at or after `i`, or the length when there is none.
pub open spec fn first_nl(s: Seq<char>, i: int) -> int
    decreases s.len() - i,
{
    if 0 <= i < s.len() && s[i] != '\n' {
        first_nl(s, i + 1)
    } else {
        i
    }
}

pub proof fn lemma_first_nl(s: Seq<char>, i: int)
    requires
        0 <= i <= s.len(),
    ensures
        i <= first_nl(s, i) <= s.len(),
        forall|k: int| i <= k < first_nl(s, i) ==> #[trigger] s[k] != '\n',
        first_nl(s, i) < s.len() ==> s[first_nl(s, i)] == '\n',
    decreases s.len() - i,
{
    if i < s.len() && s[i] != '\n' {
        lemma_first_nl(s, i + 1);
    }
}

pub proof fn lemma_first_nl_at(s: Seq<char>, i: int, k: int)
    requires
        0 <= i <= k <= s.len(),
        forall|m: int| i <= m < k ==> #[trigger] s[m] != '\n',
        k < s.len() ==> s[k] == '\n',
    ensures
        first_nl(s, i) == k,
    decreases k - i,
{
    if i < k {
        lemma_first_nl_at(s, i + 1, k);
    }
}

/// The pieces of `s` cut after every line feed, as `str::split_inclusive('\n')` yields them.
pub open spec fn pieces(s: Seq<char>) -> Seq<Seq<char>>
    decreases s.len(),
{
    if s.len() == 0 {
        Seq::empty()
    } else {
        let i = first_nl(s, 0);
        if 0 <= i < s.len() {
            seq![s.take(i + 1)] + pieces(s.skip(i + 1))
        } else {
            seq![s]
        }
    }
}

/// The shape of a split: non-empty pieces, each ending in its only line
/// feed, except that the last one may have none.
pub open spec fn well_shaped(ps: Seq<Seq<char>>) -> bool {
    &&& forall|i: int| 0 <= i < ps.len() ==> (#[trigger] ps[i]).len() > 0
    &&& forall|i: int| 0 <= i < ps.len() - 1 ==> (#[trigger] ps[i]).last() == '\n'
    &&& forall|i: int, j: int|
        0 <= i < ps.len() && 0 <= j < ps[i].len() - 1 ==> #[trigger] ps[i][j] != '\n'
}

/// Whether a piece is a whole line that ends in a line feed.
pub open spec fn closed_piece(p: Seq<char>) -> bool {
    &&& p.len() > 0
    &&& p.last() == '\n'
    &&& forall|j: int| 0 <= j < p.len() - 1 ==> #[trigger] p[j] != '\n'
}

proof fn lemma_flatten_cons(x: Seq<char>, rest: Seq<Seq<char>>)
    ensures
        (seq![x] + rest).flatten() == x + rest.flatten(),
{
    let ps = seq![x] + rest;
    assert(ps.first() == x);
    assert(ps.drop_first() =~= rest);
}

/// Splitting a well-shaped sequence of pieces back out of its concatenation
/// gives the same pieces.
pub proof fn lemma_pieces_of_flatten(ps: Seq<Seq<char>>)
    requires
        well_shaped(ps),
    ensures
        pieces(ps.flatten()) == ps,
    decreases ps.len(),
{
    if ps.len() == 0 {
        assert(ps.flatten() =~= Seq::<char>::empty());
        assert(pieces(Seq::<char>::empty()) =~= ps);
    } else {
        let x = ps[0];
        let rest = ps.drop_first();
        assert(ps =~= seq![x] + rest);
        lemma_flatten_cons(x, rest);
        let s = ps.flatten();
        assert(s == x + rest.flatten());
        assert(well_shaped(rest)) by {
            assert forall|i: int| 0 <= i < rest.len() implies (#[trigger] rest[i]).len() > 0 by {
                assert(rest[i] == ps[i + 1]);
            }
            assert forall|i: int| 0 <= i < rest.len() - 1 implies (#[trigger] rest[i]).last() == '\n' by {
                assert(rest[i] == ps[i + 1]);
            }
            assert forall|i: int, j: int|
                0 <= i < rest.len() && 0 <= j < rest[i].len() - 1 implies #[trigger] rest[i][j] != '\n' by {
                assert(rest[i] == ps[i + 1]);
            }
        }
        lemma_pieces_of_flatten(rest);
        assert(x.len() > 0);
        if x.last() == '\n' {
            let k = x.len() - 1;
            assert forall|m: int| 0 <= m < k implies #[trigger] s[m] != '\n' by {
                assert(s[m] == x[m]);
                assert(ps[0][m] != '\n');
            }
            assert(s[k] == x[k]);
            lemma_first_nl_at(s, 0, k);
            assert(s.take(k + 1) =~= x);
            assert(s.skip(k + 1) =~= rest.flatten());
            assert(pieces(s) == seq![s.take(k + 1)] + pieces(s.skip(k + 1)));
            assert(pieces(s) =~= ps);
        } else {
            assert(ps.len() == 1);
            assert(rest.len() == 0);
            assert(rest.flatten() =~= Seq::<char>::empty());
            assert(s =~= x);
            assert forall|m: int| 0 <= m < s.len() implies #[trigger] s[m] != '\n' by {
                assert(ps[0][m] != '\n');
            }
            lemma_first_nl_at(s, 0, s.len() as int);
            assert(pieces(s) =~= ps);
        }
    }
}

/// Every text splits into a well-shaped sequence of pieces whose concatenation is the text.
pub proof fn lemma_pieces_shape(s: Seq<char>)
    ensures
        well_shaped(pieces(s)),
        pieces(s).flatten() == s,
    decreases s.len(),
{
    if s.len() == 0 {
        assert(pieces(s).flatten() =~= s);
    } else {
        lemma_first_nl(s, 0);
        let i = first_nl(s, 0);
        if i < s.len() {
            let x = s.take(i + 1);
            let r = s.skip(i + 1);
            lemma_pieces_shape(r);
            let rest = pieces(r);
            let ps = seq![x] + rest;
            assert(pieces(s) == ps);
            lemma_flatten_cons(x, rest);
            assert(x + r =~= s);
            assert forall|k: int| 0 <= k < ps.len() implies (#[trigger] ps[k]).len() > 0 by {
                if k > 0 {
                    assert(ps[k] == rest[k - 1]);
                }
            }
            assert forall|k: int| 0 <= k < ps.len() - 1 implies (#[trigger] ps[k]).last() == '\n' by {
                if k > 0 {
                    assert(ps[k] == rest[k - 1]);
                }
            }
            assert forall|k: int, j: int|
                0 <= k < ps.len() && 0 <= j < ps[k].len() - 1 implies #[trigger] ps[k][j] != '\n' by {
                if k > 0 {
                    assert(ps[k] == rest[k - 1]);
                } else {
                    assert(ps[0] == x);
                    assert(x[j] == s[j]);
                }
            }
        } else {
            let ps = pieces(s);
            assert(ps == seq![s]);
            lemma_flatten_cons(s, Seq::empty());
            assert(seq![s] + Seq::<Seq<char>>::empty() =~= seq![s]);
            assert(Seq::<Seq<char>>::empty().flatten() =~= Seq::<char>::empty());
            assert(s + Seq::<char>::empty() =~= s);
        }
    }
}


/// The character sequences held by a vector of character vectors.
pub open spec fn views(ps: Seq<Vec<char>>) -> Seq<Seq<char>> {
    Seq::new(ps.len(), |i: int| ps[i]@)
}

/// Split the characters of a text into its pieces (see `pieces`).
pub fn split_pieces(cs: &Vec<char>) -> (ps: Vec<Vec<char>>)
    ensures
        views(ps@) == pieces(cs@),
        well_shaped(views(ps@)),
{
    let mut done: Vec<Vec<char>> = Vec::new();
    let mut cur: Vec<char> = Vec::new();
    let mut i: usize = 0;
    while i < cs.len()
        invariant
            i <= cs@.len(),
            forall|k: int| 0 <= k < views(done@).len() ==> closed_piece(#[trigger] views(done@)[k]),
            forall|j: int| 0 <= j < cur@.len() ==> #[trigger] cur@[j] != '\n',
            views(done@).flatten() + cur@ == cs@.take(i as int),
        decreases cs@.len() - i,
    {
        let c = cs[i];
        let ghost old_done = views(done@);
        let ghost old_cur = cur@;
        cur.push(c);
        if c == '\n' {
            let piece = cur;
            cur = Vec::new();
            done.push(piece);
            proof {
                assert(views(done@) =~= old_done.push(old_cur.push(c)));
                old_done.lemma_flatten_push(old_cur.push(c));
                assert(closed_piece(old_cur.push(c)));
                assert(cs@.take(i + 1) =~= cs@.take(i as int).push(c));
                assert(views(done@).flatten() + cur@ =~= cs@.take(i + 1));
            }
        } else {
            proof {
                assert(cs@.take(i + 1) =~= cs@.take(i as int).push(c));
                assert(views(done@).flatten() + cur@ =~= cs@.take(i + 1));
            }
        }
        i += 1;
    }
    let ghost pre = views(done@);
    if cur.len() > 0 {
        let ghost last = cur@;
        done.push(cur);
        proof {
            assert(views(done@) =~= pre.push(last));
            pre.lemma_flatten_push(last);
        }
    } else {
        proof {
            assert(cur@ =~= Seq::<char>::empty());
            assert(pre.flatten() + cur@ =~= pre.flatten());
        }
    }
    proof {
        let ps = views(done@);
        assert(cs@.take(cs@.len() as int) =~= cs@);
        assert(ps.flatten() == cs@);
        assert forall|k: int| 0 <= k < ps.len() implies (#[trigger] ps[k]).len() > 0 by {
            if k < pre.len() {
                assert(ps[k] == pre[k]);
                assert(closed_piece(pre[k]));
            }
        }
        assert forall|k: int| 0 <= k < ps.len() - 1 implies (#[trigger] ps[k]).last() == '\n' by {
            assert(ps[k] == pre[k]);
            assert(closed_piece(pre[k]));
        }
        assert forall|k: int, j: int|
            0 <= k < ps.len() && 0 <= j < ps[k].len() - 1 implies #[trigger] ps[k][j] != '\n' by {
            if k < pre.len() {
                assert(ps[k] == pre[k]);
                assert(closed_piece(pre[k]));
            }
        }
        lemma_pieces_of_flatten(ps);
    }
    done
}

/// Append all characters of `cs` to `out`.
pub fn push_all(out: &mut String, cs: &Vec<char>)
    ensures
        final(out)@ == old(out)@ + cs@,
{
    let mut i: usize = 0;
    while i < cs.len()
        invariant
            i <= cs@.len(),
            out@ == old(out)@ + cs@.take(i as int),
        decreases cs@.len() - i,
    {
        out.push(cs[i]);
        i += 1;
        proof {
            assert(cs@.take(i as int) =~= cs@.take(i - 1).push(cs@[i - 1]));
        }
    }
    proof {
        assert(cs@.take(cs@.len() as int) =~= cs@);
    }
}

/// The concatenation of all pieces.
pub fn join_pieces(ps: &Vec<Vec<char>>) -> (s: String)
    ensures
        s@ == views(ps@).flatten(),
{
    let mut out = String::new();
    let mut i: usize = 0;
    while i < ps.len()
        invariant
            i <= ps@.len(),
            out@ == views(ps@).take(i as int).flatten(),
        decreases ps@.len() - i,
    {
        let ghost before = views(ps@).take(i as int);
        push_all(&mut out, &ps[i]);
        proof {
            assert(views(ps@).take(i + 1) =~= before.push(views(ps@)[i as int]));
            before.lemma_flatten_push(views(ps@)[i as int]);
        }
        i += 1;
    }
    proof {
        assert(views(ps@).take(ps@.len() as int) =~= views(ps@));
    }
    out
}


/// `str::trim`: the text without leading and trailing Unicode white space.
pub open spec fn spec_trim(s: Seq<char>) -> Seq<char> {
    let a = ws_end(s, 0);
    if a == s.len() {
        Seq::empty()
    } else {
        s.subrange(a, ws_start_back(s, s.len() as int))
    }
}

/// Whether `c` is a carriage return or a line feed.
pub open spec fn is_eol(c: char) -> bool {
    c == '\r' || c == '\n'
}

/// The start of the run of `\r`/`\n` characters that ends at `e`.
pub open spec fn eol_start(s: Seq<char>, e: int) -> int
    decreases e,
{
    if 0 < e <= s.len() && is_eol(s[e - 1]) {
        eol_start(s, e - 1)
    } else {
        e
    }
}

pub proof fn lemma_eol_start(s: Seq<char>, e: int)
    requires
        0 <= e <= s.len(),
    ensures
        0 <= eol_start(s, e) <= e,
        forall|k: int| eol_start(s, e) <= k < e ==> is_eol(#[trigger] s[k]),
        eol_start(s, e) > 0 ==> !is_eol(s[eol_start(s, e) - 1]),
    decreases e,
{
    if 0 < e && is_eol(s[e - 1]) {
        lemma_eol_start(s, e - 1);
    }
}

/// `trim_end_matches(['\r', '\n'])`: where the line body of a piece ends.
pub open spec fn body_end(p: Seq<char>) -> int {
    eol_start(p, p.len() as int)
}

/// Where the line body of a piece ends (trailing `\r` and `\n` removed).
pub fn body_end_of(cs: &Vec<char>) -> (e: usize)
    ensures
        e == body_end(cs@),
        e <= cs@.len(),
{
    proof {
        lemma_eol_start(cs@, cs@.len() as int);
    }
    let mut j = cs.len();
    while j > 0 && (cs[j - 1] == '\r' || cs[j - 1] == '\n')
        invariant
            j <= cs@.len(),
            eol_start(cs@, cs@.len() as int) == eol_start(cs@, j as int),
        decreases j,
    {
        j -= 1;
    }
    j
}

/// Start and end of the trimmed part of `cs` (equal when it is all white space).
pub fn trim_bounds(cs: &Vec<char>) -> (r: (usize, usize))
    ensures
        r.0 <= r.1 <= cs@.len(),
        cs@.subrange(r.0 as int, r.1 as int) == spec_trim(cs@),
{
    proof {
        lemma_ws_end(cs@, 0);
        lemma_ws_start_back(cs@, cs@.len() as int);
    }
    let a = skip_ws(cs, 0);
    if a == cs.len() {
        return (a, a);
    }
    let e = skip_ws_back(cs, cs.len());
    proof {
        if e <= a {
            assert(is_ws(cs@[a as int]));
        }
    }
    (a, e)
}

/// The characters `cs[from..to]` as a new vector.
pub fn sub_chars(cs: &Vec<char>, from: usize, to: usize) -> (out: Vec<char>)
    requires
        from <= to <= cs@.len(),
    ensures
        out@ == cs@.subrange(from as int, to as int),
{
    let mut out: Vec<char> = Vec::new();
    let mut i = from;
    while i < to
        invariant
            from <= i <= to <= cs@.len(),
            out@ == cs@.subrange(from as int, i as int),
        decreases to - i,
    {
        out.push(cs[i]);
        i += 1;
    }
    out
}

/// `s.trim()` as characters.
pub fn trimmed_chars(s: &str) -> (out: Vec<char>)
    ensures
        out@ == spec_trim(s@),
{
    let cs = chars_of(s);
    let (a, e) = trim_bounds(&cs);
    sub_chars(&cs, a, e)
}

/// Append the characters of a text to a character vector.
pub fn extend_str(out: &mut Vec<char>, s: &str)
    ensures
        final(out)@ == old(out)@ + s@,
{
    let cs = chars_of(s);
    let mut i: usize = 0;
    while i < cs.len()
        invariant
            i <= cs@.len(),
            out@ == old(out)@ + cs@.take(i as int),
        decreases cs@.len() - i,
    {
        out.push(cs[i]);
        i += 1;
        proof {
            assert(cs@.take(i as int) =~= cs@.take(i - 1).push(cs@[i - 1]));
        }
    }
    proof {
        assert(cs@.take(cs@.len() as int) =~= cs@);
    }
}

/// Append the characters `src[from..to]` to a character vector.
pub fn extend_range(out: &mut Vec<char>, src: &Vec<char>, from: usize, to: usize)
    requires
        from <= to <= src@.len(),
    ensures
        final(out)@ == old(out)@ + src@.subrange(from as int, to as int),
{
    let mut i = from;
    while i < to
        invariant
            from <= i <= to <= src@.len(),
            out@ == old(out)@ + src@.subrange(from as int, i as int),
        decreases to - i,
    {
        out.push(src[i]);
        i += 1;
        proof {
            assert(src@.subrange(from as int, i as int) =~= src@.subrange(from as int, i - 1).push(src@[i - 1]));
        }
    }
}

/// Whether the vector contains the character.
pub fn contains_char(cs: &Vec<char>, c: char) -> (b: bool)
    ensures
        b == cs@.contains(c),
{
    let mut i: usize = 0;
    while i < cs.len()
        invariant
            i <= cs@.len(),
            forall|k: int| 0 <= k < i ==> cs@[k] != c,
        decreases cs@.len() - i,
    {
        if cs[i] == c {
            assert(cs@[i as int] == c);
            return true;
        }
        i += 1;
    }
    false
}


/// A line as `str::lines` yields it from a piece: without its line feed, and
/// without a carriage return that stood right before that line feed.
pub open spec fn strip_eol(p: Seq<char>) -> Seq<char> {
    if p.len() > 0 && p.last() == '\n' {
        let q = p.drop_last();
        if q.len() > 0 && q.last() == '\r' {
            q.drop_last()
        } else {
            q
        }
    } else {
        p
    }
}

/// The lines of a text, as `str::lines` yields them.
pub open spec fn lines(s: Seq<char>) -> Seq<Seq<char>> {
    pieces(s).map_values(|p: Seq<char>| strip_eol(p))
}

/// The line held by a piece (see `strip_eol`).
pub fn line_of_piece(p: &Vec<char>) -> (out: Vec<char>)
    ensures
        out@ == strip_eol(p@),
{
    let mut e = p.len();
    if e > 0 && p[e - 1] == '\n' {
        e -= 1;
        if e > 0 && p[e - 1] == '\r' {
            e -= 1;
        }
    }
    let out = sub_chars(p, 0, e);
    proof {
        if p@.len() > 0 && p@.last() == '\n' {
            let q = p@.drop_last();
            if q.len() > 0 && q.last() == '\r' {
                assert(out@ =~= q.drop_last());
            } else {
                assert(out@ =~= q);
            }
        } else {
            assert(out@ =~= p@);
        }
    }
    out
}

/// A trimmed text that is not empty starts and ends with a character that is
/// not white space.
pub proof fn lemma_trim_ends(t: Seq<char>)
    requires
        spec_trim(t).len() > 0,
    ensures
        !is_ws(spec_trim(t)[0]),
        !is_ws(spec_trim(t).last()),
{
    lemma_ws_end(t, 0);
    lemma_ws_start_back(t, t.len() as int);
    let a = ws_end(t, 0);
    let e = ws_start_back(t, t.len() as int);
    assert(a < t.len());
    if e <= a {
        assert(is_ws(t[a]));
    }
    assert(spec_trim(t) =~= t.subrange(a, e));
}

/// Trimming a trimmed text changes nothing.
pub proof fn lemma_trim_idempotent(t: Seq<char>)
    ensures
        spec_trim(spec_trim(t)) == spec_trim(t),
{
    let s = spec_trim(t);
    if s.len() > 0 {
        lemma_trim_ends(t);
        assert(ws_end(s, 0) == 0);
        assert(ws_start_back(s, s.len() as int) == s.len());
        assert(s.subrange(0, s.len() as int) =~= s);
    } else {
        assert(ws_end(s, 0) == 0);
    }
}

/// A trimmed text is a run of the text's characters.
pub proof fn lemma_trim_sub(t: Seq<char>) -> (a: int)
    ensures
        0 <= a,
        a + spec_trim(t).len() <= t.len(),
        spec_trim(t) == t.subrange(a, a + spec_trim(t).len()),
{
    lemma_ws_end(t, 0);
    lemma_ws_start_back(t, t.len() as int);
    let a = ws_end(t, 0);
    if a == t.len() {
        assert(spec_trim(t) =~= t.subrange(a, a));
    } else {
        let e = ws_start_back(t, t.len() as int);
        if e <= a {
            assert(is_ws(t[a]));
        }
        assert(spec_trim(t) == t.subrange(a, a + spec_trim(t).len()));
    }
    a
}

} // verus!
