//! Paths held as text: the parent, the file name, its stem and extension,
//! and joining, as `std::path::Path` computes them. Both `/` and `\`
//! separate components and a leading drive `X:` is a prefix, so Windows
//! paths read as on Windows and ordinary Unix paths as on Unix; components
//! are assumed not to be `.`.

use vstd::prelude::*;
use crate::text::{chars_of, string_of};

verus! {

/// A path separator: `/` or `\`.
pub open spec fn is_sep(c: char) -> bool {
    c == '/' || c == '\\'
}

fn is_sep_exec(c: char) -> (b: bool)
    ensures
        b == is_sep(c),
{
    c == '/' || c == '\\'
}

/// `p` starts with a drive prefix: an ASCII letter and `:`.
pub open spec fn has_drive(p: Seq<char>) -> bool {
    &&& p.len() >= 2
    &&& p[1] == ':'
    &&& (('A' <= p[0] && p[0] <= 'Z') || ('a' <= p[0] && p[0] <= 'z'))
}

/// The length of the prefix of `p`: 2 for a drive, else 0.
pub open spec fn prefix_len(p: Seq<char>) -> int {
    if has_drive(p) {
        2
    } else {
        0
    }
}

fn prefix_len_exec(cs: &Vec<char>) -> (n: usize)
    ensures
        n == prefix_len(cs@),
{
    if cs.len() >= 2 && cs[1] == ':' && (('A' <= cs[0] && cs[0] <= 'Z') || ('a' <= cs[0] && cs[0] <= 'z')) {
        2
    } else {
        0
    }
}

/// End of `s[..e]` without trailing separators.
pub open spec fn strip_slashes_end(s: Seq<char>, e: int) -> int
    decreases e,
{
    if 0 < e <= s.len() && is_sep(s[e - 1]) {
        strip_slashes_end(s, e - 1)
    } else {
        e
    }
}

/// Index of the last separator in `s[..e]`, or -1.
pub open spec fn last_slash(s: Seq<char>, e: int) -> int
    decreases e,
{
    if e <= 0 || e > s.len() {
        -1
    } else if is_sep(s[e - 1]) {
        e - 1
    } else {
        last_slash(s, e - 1)
    }
}

/// The parent of a path: `None` for a path that is empty, a root or a
/// prefix alone; the prefix for a single name after it (the empty path when
/// there is no prefix); otherwise the path up to its last separator,
/// trailing separators removed, the root keeping its separator.
pub open spec fn spec_parent(p: Seq<char>) -> Option<Seq<char>> {
    let pl = prefix_len(p);
    let t = strip_slashes_end(p, p.len() as int);
    if t <= pl {
        None
    } else {
        let i = last_slash(p, t);
        if i < 0 {
            Some(p.take(pl))
        } else {
            let q = strip_slashes_end(p, i);
            if q <= pl {
                Some(p.take(pl + 1))
            } else {
                Some(p.take(q))
            }
        }
    }
}

/// The last component of a path (trailing separators ignored), or `None`
/// when there is none or it is `..` or `.`.
pub open spec fn spec_file_name(p: Seq<char>) -> Option<Seq<char>> {
    let pl = prefix_len(p);
    let t = strip_slashes_end(p, p.len() as int);
    if t <= pl {
        None
    } else {
        let i = last_slash(p, t);
        let name = p.subrange(if i < 0 { pl } else { i + 1 }, t);
        if name == seq!['.', '.'] || name == seq!['.'] {
            None
        } else {
            Some(name)
        }
    }
}

/// Index of the last `.` in a name, or -1.
pub open spec fn last_dot(n: Seq<char>, e: int) -> int
    decreases e,
{
    if e <= 0 || e > n.len() {
        -1
    } else if n[e - 1] == '.' {
        e - 1
    } else {
        last_dot(n, e - 1)
    }
}

/// The extension of a file name: after its last `.`, unless that dot is its
/// first character or it has none.
pub open spec fn spec_extension(name: Seq<char>) -> Option<Seq<char>> {
    let d = last_dot(name, name.len() as int);
    if d <= 0 {
        None
    } else {
        Some(name.skip(d + 1))
    }
}

/// The stem of a file name: before its last `.`, or the whole name (see `spec_extension`).
pub open spec fn spec_file_stem(name: Seq<char>) -> Seq<char> {
    let d = last_dot(name, name.len() as int);
    if d <= 0 {
        name
    } else {
        name.take(d)
    }
}

/// The separator `PathBuf::push` puts between a path and a name: `\` for a
/// path with a drive or a `\` in it, else `/`.
pub open spec fn sep_of(base: Seq<char>) -> char {
    if has_drive(base) || base.contains('\\') {
        '\\'
    } else {
        '/'
    }
}

/// `PathBuf::push`: a `name` with a drive replaces the path; one that starts
/// with a separator replaces all of it but its prefix; otherwise `name` is
/// appended, after a separator unless the path is empty, ends in one or is
/// a prefix alone.
pub open spec fn spec_join(base: Seq<char>, name: Seq<char>) -> Seq<char> {
    if has_drive(name) {
        name
    } else if name.len() > 0 && is_sep(name[0]) {
        base.take(prefix_len(base)) + name
    } else if base.len() == prefix_len(base) || is_sep(base.last()) {
        base + name
    } else {
        base + seq![sep_of(base)] + name
    }
}

fn strip_end(cs: &Vec<char>, e: usize) -> (r: usize)
    requires
        e <= cs@.len(),
    ensures
        r == strip_slashes_end(cs@, e as int),
        r <= e,
{
    let mut j = e;
    while j > 0 && is_sep_exec(cs[j - 1])
        invariant
            j <= e <= cs@.len(),
            strip_slashes_end(cs@, e as int) == strip_slashes_end(cs@, j as int),
        decreases j,
    {
        j -= 1;
    }
    j
}

fn find_last_slash(cs: &Vec<char>, e: usize) -> (r: Option<usize>)
    requires
        e <= cs@.len(),
    ensures
        match r {
            Some(i) => i as int == last_slash(cs@, e as int) && i < e,
            None => last_slash(cs@, e as int) == -1,
        },
{
    let mut j = e;
    while j > 0
        invariant
            j <= e <= cs@.len(),
            last_slash(cs@, e as int) == last_slash(cs@, j as int),
        decreases j,
    {
        if is_sep_exec(cs[j - 1]) {
            return Some(j - 1);
        }
        j -= 1;
    }
    None
}

/// The parent of a path (see `spec_parent`).
pub fn parent(p: &str) -> (r: Option<String>)
    ensures
        match r {
            Some(s) => spec_parent(p@) == Some(s@),
            None => spec_parent(p@) is None,
        },
{
    let cs = chars_of(p);
    let pl = prefix_len_exec(&cs);
    let t = strip_end(&cs, cs.len());
    if t <= pl {
        return None;
    }
    match find_last_slash(&cs, t) {
        None => {
            let s = string_of(&cs, 0, pl);
            assert(s@ =~= p@.take(pl as int));
            Some(s)
        },
        Some(i) => {
            let q = strip_end(&cs, i);
            if q <= pl {
                let s = string_of(&cs, 0, pl + 1);
                assert(s@ =~= p@.take(pl + 1));
                Some(s)
            } else {
                let s = string_of(&cs, 0, q);
                assert(s@ =~= p@.take(q as int));
                Some(s)
            }
        },
    }
}

/// The last component of a path (see `spec_file_name`).
pub fn file_name(p: &str) -> (r: Option<String>)
    ensures
        match r {
            Some(s) => spec_file_name(p@) == Some(s@),
            None => spec_file_name(p@) is None,
        },
{
    let cs = chars_of(p);
    let pl = prefix_len_exec(&cs);
    let t = strip_end(&cs, cs.len());
    if t <= pl {
        return None;
    }
    let start = match find_last_slash(&cs, t) {
        Some(i) => i + 1,
        None => pl,
    };
    let nm = crate::text::sub_chars(&cs, start, t);
    let n = nm.len();
    if (n == 2 && nm[0] == '.' && nm[1] == '.') || (n == 1 && nm[0] == '.') {
        proof {
            if n == 2 {
                assert(nm@ =~= seq!['.', '.']);
            } else {
                assert(nm@ =~= seq!['.']);
            }
        }
        return None;
    }
    proof {
        if nm@ == seq!['.', '.'] {
            assert(nm@[0] == '.' && nm@[1] == '.');
        }
        if nm@ == seq!['.'] {
            assert(nm@[0] == '.');
        }
    }
    let name = string_of(&nm, 0, n);
    assert(name@ =~= nm@);
    Some(name)
}

fn find_last_dot(cs: &Vec<char>) -> (r: Option<usize>)
    ensures
        match r {
            Some(i) => i as int == last_dot(cs@, cs@.len() as int) && i < cs@.len(),
            None => last_dot(cs@, cs@.len() as int) == -1,
        },
{
    let mut j = cs.len();
    while j > 0
        invariant
            j <= cs@.len(),
            last_dot(cs@, cs@.len() as int) == last_dot(cs@, j as int),
        decreases j,
    {
        if cs[j - 1] == '.' {
            return Some(j - 1);
        }
        j -= 1;
    }
    None
}

/// The extension of a file name (see `spec_extension`).
pub fn extension(name: &str) -> (r: Option<String>)
    ensures
        match r {
            Some(s) => spec_extension(name@) == Some(s@),
            None => spec_extension(name@) is None,
        },
{
    let cs = chars_of(name);
    let len = cs.len();
    match find_last_dot(&cs) {
        Some(d) if d > 0 => {
            let s = string_of(&cs, d + 1, len);
            assert(s@ =~= name@.skip(d + 1));
            Some(s)
        },
        _ => None,
    }
}

/// The stem of a file name (see `spec_file_stem`).
pub fn file_stem(name: &str) -> (r: String)
    ensures
        r@ == spec_file_stem(name@),
{
    let cs = chars_of(name);
    match find_last_dot(&cs) {
        Some(d) if d > 0 => {
            let s = string_of(&cs, 0, d);
            assert(s@ =~= name@.take(d as int));
            s
        },
        _ => {
            let s = string_of(&cs, 0, cs.len());
            assert(s@ =~= name@);
            s
        },
    }
}

fn has_backslash(cs: &Vec<char>) -> (b: bool)
    ensures
        b == cs@.contains('\\'),
{
    let mut i: usize = 0;
    while i < cs.len()
        invariant
            i <= cs@.len(),
            forall|k: int| 0 <= k < i ==> cs@[k] != '\\',
        decreases cs@.len() - i,
    {
        if cs[i] == '\\' {
            return true;
        }
        i += 1;
    }
    false
}

/// `base` joined with `name` (see `spec_join`).
pub fn join(base: &str, name: &str) -> (r: String)
    ensures
        r@ == spec_join(base@, name@),
{
    let b = chars_of(base);
    let n = chars_of(name);
    if prefix_len_exec(&n) == 2 {
        return String::from_str(name);
    }
    let bl = prefix_len_exec(&b);
    if n.len() > 0 && is_sep_exec(n[0]) {
        let mut s = string_of(&b, 0, bl);
        assert(s@ =~= base@.take(bl as int));
        s.append(name);
        return s;
    }
    let mut s = String::from_str(base);
    if !(b.len() == bl || is_sep_exec(b[b.len() - 1])) {
        if bl == 2 || has_backslash(&b) {
            s.push('\\');
        } else {
            s.push('/');
        }
    }
    s.append(name);
    s
}


/// The order of characters in paths: the separators come before every
/// other character (`/` before `\`), the others in code point order.
pub open spec fn sep_lt(x: char, y: char) -> bool {
    x != y && (x == '/' || (y != '/' && (x == '\\' || (y != '\\' && x < y))))
}

/// `a` orders before `b` as paths: lexicographically, the separators first.
/// For paths with one kind of separator and without empty or `.`
/// components this is the order of their component sequences, each
/// component compared as text.
pub open spec fn path_lt(a: Seq<char>, b: Seq<char>) -> bool
    decreases a.len(),
{
    if a.len() == 0 {
        b.len() > 0
    } else if b.len() == 0 {
        false
    } else if a[0] != b[0] {
        sep_lt(a[0], b[0])
    } else {
        path_lt(a.drop_first(), b.drop_first())
    }
}

pub proof fn lemma_path_lt_transitive(a: Seq<char>, b: Seq<char>, c: Seq<char>)
    requires
        path_lt(a, b),
        path_lt(b, c),
    ensures
        path_lt(a, c),
    decreases a.len(),
{
    if a.len() > 0 && a[0] == b[0] && b[0] == c[0] {
        lemma_path_lt_transitive(a.drop_first(), b.drop_first(), c.drop_first());
    }
}

pub proof fn lemma_path_lt_irreflexive(a: Seq<char>)
    ensures
        !path_lt(a, a),
    decreases a.len(),
{
    if a.len() > 0 {
        lemma_path_lt_irreflexive(a.drop_first());
    }
}

pub proof fn lemma_path_lt_total(a: Seq<char>, b: Seq<char>)
    requires
        a != b,
    ensures
        path_lt(a, b) || path_lt(b, a),
    decreases a.len(),
{
    if a.len() > 0 && b.len() > 0 && a[0] == b[0] {
        if a.drop_first() == b.drop_first() {
            assert(a =~= seq![a[0]] + a.drop_first());
            assert(b =~= seq![b[0]] + b.drop_first());
        }
        lemma_path_lt_total(a.drop_first(), b.drop_first());
    } else if a.len() == 0 && b.len() == 0 {
        assert(a =~= b);
    }
}

proof fn lemma_path_lt_skip(a: Seq<char>, b: Seq<char>, k: int)
    requires
        0 <= k <= a.len(),
        k <= b.len(),
        a.take(k) == b.take(k),
    ensures
        path_lt(a, b) == path_lt(a.skip(k), b.skip(k)),
    decreases k,
{
    if k > 0 {
        assert(a[0] == a.take(k)[0]);
        assert(b[0] == b.take(k)[0]);
        assert(a.drop_first().take(k - 1) =~= a.take(k).drop_first());
        assert(b.drop_first().take(k - 1) =~= b.take(k).drop_first());
        lemma_path_lt_skip(a.drop_first(), b.drop_first(), k - 1);
        assert(a.drop_first().skip(k - 1) =~= a.skip(k));
        assert(b.drop_first().skip(k - 1) =~= b.skip(k));
    } else {
        assert(a.skip(0) =~= a);
        assert(b.skip(0) =~= b);
    }
}

/// Whether `a` orders before `b` as paths (see `path_lt`).
pub fn path_less(a: &Vec<char>, b: &Vec<char>) -> (r: bool)
    ensures
        r == path_lt(a@, b@),
{
    let mut k: usize = 0;
    while k < a.len() && k < b.len() && a[k] == b[k]
        invariant
            k <= a@.len(),
            k <= b@.len(),
            a@.take(k as int) == b@.take(k as int),
        decreases a@.len() - k,
    {
        proof {
            assert(a@.take(k + 1) =~= a@.take(k as int).push(a@[k as int]));
            assert(b@.take(k + 1) =~= b@.take(k as int).push(b@[k as int]));
        }
        k += 1;
    }
    proof {
        lemma_path_lt_skip(a@, b@, k as int);
    }
    if k == a.len() {
        assert(a@.skip(k as int).len() == 0);
        k < b.len()
    } else if k == b.len() {
        assert(b@.skip(k as int).len() == 0);
        false
    } else {
        proof {
            assert(a@.skip(k as int)[0] == a@[k as int]);
            assert(b@.skip(k as int)[0] == b@[k as int]);
        }
        if a[k] == '/' {
            true
        } else if b[k] == '/' {
            false
        } else if a[k] == '\\' {
            true
        } else if b[k] == '\\' {
            false
        } else {
            a[k] < b[k]
        }
    }
}

} // verus!
