//! The hub folder: one directory that mirrors every configured source
//! under a readable name. This module decides the names; creating and
//! removing the links is file-system work done by the caller.

use vstd::prelude::*;
use crate::path::{extension, file_name, file_stem, join, spec_extension, spec_file_name, spec_file_stem, spec_join};
use crate::text::{chars_of, is_whitespace, is_ws, spec_trim, string_of, trim_bounds};
use crate::types::{Source, SourceKind};

verus! {

/// Characters that file systems reserve: `< > : " / \ | ? *`.
pub open spec fn is_reserved(c: char) -> bool {
    c == '<' || c == '>' || c == ':' || c == '"' || c == '/' || c == '\\' || c == '|' || c == '?'
        || c == '*'
}

/// `char::is_control`: the Unicode control characters (general category Cc).
pub open spec fn is_control(c: char) -> bool {
    c <= '\u{1f}' || ('\u{7f}' <= c && c <= '\u{9f}')
}

/// Each reserved or control character replaced by `_`.
pub open spec fn replace_unsafe(s: Seq<char>) -> Seq<char> {
    s.map_values(|c: char| if is_reserved(c) || is_control(c) { '_' } else { c })
}

/// A character stripped from the end of a name: white space or `.`.
pub open spec fn is_tail_junk(c: char) -> bool {
    c == '.' || is_ws(c)
}

/// End of `s[..e]` without its trailing run of white space and dots.
pub open spec fn junk_start_back(s: Seq<char>, e: int) -> int
    decreases e,
{
    if 0 < e <= s.len() && is_tail_junk(s[e - 1]) {
        junk_start_back(s, e - 1)
    } else {
        e
    }
}

/// `s` without its trailing run of white space and dots.
pub open spec fn strip_tail(s: Seq<char>) -> Seq<char> {
    s.take(junk_start_back(s, s.len() as int))
}

/// A file-system-safe name: reserved and control characters become `_`,
/// then the trailing run of white space and dots and the leading white
/// space are stripped.
pub open spec fn spec_sanitize(raw: Seq<char>) -> Seq<char> {
    spec_trim(strip_tail(replace_unsafe(raw)))
}

fn trimmed(cs: &Vec<char>) -> (out: Vec<char>)
    ensures
        out@ == spec_trim(cs@),
{
    let (a, e) = trim_bounds(cs);
    crate::text::sub_chars(cs, a, e)
}

/// Sanitise a text into a file-system-safe file name (see `spec_sanitize`).
pub fn sanitize_name(raw: &str) -> (out: String)
    ensures
        out@ == spec_sanitize(raw@),
{
    let cs = chars_of(raw);
    let mut cleaned: Vec<char> = Vec::new();
    let mut i: usize = 0;
    while i < cs.len()
        invariant
            i <= cs@.len(),
            cleaned@ == replace_unsafe(cs@.take(i as int)),
        decreases cs@.len() - i,
    {
        let c = cs[i];
        let reserved = c == '<' || c == '>' || c == ':' || c == '"' || c == '/' || c == '\\' || c
            == '|' || c == '?' || c == '*';
        let control = (c <= '\u{1f}') || ('\u{7f}' <= c && c <= '\u{9f}');
        if reserved || control {
            cleaned.push('_');
        } else {
            cleaned.push(c);
        }
        proof {
            assert(cs@.take(i + 1) =~= cs@.take(i as int).push(c));
            assert forall|k: int| 0 <= k < i + 1 implies #[trigger] cleaned@[k] == replace_unsafe(cs@.take(i + 1))[k] by {
                if k < i {
                    assert(replace_unsafe(cs@.take(i as int))[k] == replace_unsafe(cs@.take(i + 1))[k]);
                }
            }
            assert(cleaned@ =~= replace_unsafe(cs@.take(i + 1)));
        }
        i += 1;
    }
    proof {
        assert(cs@.take(cs@.len() as int) =~= cs@);
    }
    let mut e = cleaned.len();
    while e > 0 && (cleaned[e - 1] == '.' || is_whitespace(cleaned[e - 1]))
        invariant
            e <= cleaned@.len(),
            junk_start_back(cleaned@, cleaned@.len() as int) == junk_start_back(cleaned@, e as int),
        decreases e,
    {
        e -= 1;
    }
    let d = crate::text::sub_chars(&cleaned, 0, e);
    assert(d@ =~= strip_tail(cleaned@));
    let fin = trimmed(&d);
    let n = fin.len();
    string_of(&fin, 0, n)
}

/// The name a source's entry gets in the hub: its label when that is not
/// blank, else the stem of its path's file name, else its id (each name
/// sanitised, and a name that sanitises to nothing skipped).
pub open spec fn spec_mirror_stem(s: Source) -> Seq<char> {
    let label = match s.label {
        Some(l) => if spec_trim(l@).len() > 0 {
            spec_sanitize(l@)
        } else {
            Seq::empty()
        },
        None => Seq::empty(),
    };
    if label.len() > 0 {
        label
    } else {
        match spec_file_name(s.path@) {
            Some(n) => if spec_sanitize(spec_file_stem(n)).len() > 0 {
                spec_sanitize(spec_file_stem(n))
            } else {
                s.id@
            },
            None => s.id@,
        }
    }
}

/// The extension a file source keeps in the hub: its own, or `md`.
pub open spec fn spec_mirror_ext(s: Source) -> Seq<char> {
    match spec_file_name(s.path@) {
        Some(n) => match spec_extension(n) {
            Some(e) => e,
            None => "md"@,
        },
        None => "md"@,
    }
}

/// Where `source` is mirrored inside `hub`: `<stem>.<ext>` for a file,
/// `<stem>` for a folder.
pub open spec fn spec_mirror_path(hub: Seq<char>, s: Source) -> Seq<char> {
    match s.kind {
        SourceKind::File => spec_join(hub, spec_mirror_stem(s) + seq!['.'] + spec_mirror_ext(s)),
        SourceKind::Folder => spec_join(hub, spec_mirror_stem(s)),
    }
}

fn mirror_stem(source: &Source) -> (stem: String)
    ensures
        stem@ == spec_mirror_stem(*source),
{
    let label = match &source.label {
        Some(l) => {
            let tl = crate::text::trimmed_chars(l.as_str());
            if tl.len() > 0 {
                sanitize_name(l.as_str())
            } else {
                String::new()
            }
        },
        None => String::new(),
    };
    if chars_of(label.as_str()).len() > 0 {
        return label;
    }
    match file_name(source.path.as_str()) {
        Some(n) => {
            let st = sanitize_name(file_stem(n.as_str()).as_str());
            if chars_of(st.as_str()).len() > 0 {
                st
            } else {
                source.id.clone()
            }
        },
        None => source.id.clone(),
    }
}

/// The stem made unique with the source's id: `<stem> (<id>)`.
pub open spec fn spec_suffixed_stem(s: Source) -> Seq<char> {
    spec_mirror_stem(s) + " ("@ + s.id@ + ")"@
}

/// The entry of `source` when its plain name is taken: `<stem> (<id>).<ext>`
/// for a file, `<stem> (<id>)` for a folder.
pub open spec fn spec_suffixed_path(hub: Seq<char>, s: Source) -> Seq<char> {
    match s.kind {
        SourceKind::File => spec_join(hub, spec_suffixed_stem(s) + seq!['.'] + spec_mirror_ext(s)),
        SourceKind::Folder => spec_join(hub, spec_suffixed_stem(s)),
    }
}

/// Where `source` is mirrored inside `hub` when the entries `taken` are
/// already held by others: its plain path when that is free, else the path
/// with its id appended to the name.
pub open spec fn spec_mirror_path_in(hub: Seq<char>, s: Source, taken: Seq<Seq<char>>) -> Seq<char> {
    if taken.contains(spec_mirror_path(hub, s)) {
        spec_suffixed_path(hub, s)
    } else {
        spec_mirror_path(hub, s)
    }
}

/// The hub entries of `sources`, in order: each source is placed after the
/// ones before it, which hold their entries already.
pub open spec fn spec_mirror_paths(hub: Seq<char>, sources: Seq<Source>) -> Seq<Seq<char>>
    decreases sources.len(),
{
    if sources.len() == 0 {
        Seq::empty()
    } else {
        let before = spec_mirror_paths(hub, sources.drop_last());
        before.push(spec_mirror_path_in(hub, sources.last(), before))
    }
}

fn mirror_ext(source: &Source) -> (ext: String)
    ensures
        ext@ == spec_mirror_ext(*source),
{
    match file_name(source.path.as_str()) {
        Some(n) => match extension(n.as_str()) {
            Some(e) => e,
            None => String::from_str("md"),
        },
        None => String::from_str("md"),
    }
}

fn plain_mirror_path(hub: &str, source: &Source) -> (p: String)
    ensures
        p@ == spec_mirror_path(hub@, *source),
{
    let mut stem = mirror_stem(source);
    match source.kind {
        SourceKind::File => {
            let ext = mirror_ext(source);
            stem.push('.');
            crate::text::push_all(&mut stem, &chars_of(ext.as_str()));
            join(hub, stem.as_str())
        },
        SourceKind::Folder => join(hub, stem.as_str()),
    }
}

fn suffixed_mirror_path(hub: &str, source: &Source) -> (p: String)
    ensures
        p@ == spec_suffixed_path(hub@, *source),
{
    let mut stem = mirror_stem(source);
    crate::text::push_all(&mut stem, &chars_of(" ("));
    crate::text::push_all(&mut stem, &chars_of(source.id.as_str()));
    crate::text::push_all(&mut stem, &chars_of(")"));
    match source.kind {
        SourceKind::File => {
            let ext = mirror_ext(source);
            stem.push('.');
            crate::text::push_all(&mut stem, &chars_of(ext.as_str()));
            join(hub, stem.as_str())
        },
        SourceKind::Folder => join(hub, stem.as_str()),
    }
}

/// The path of `source`'s entry inside `hub`, the entries `taken` being
/// held by others already (see `spec_mirror_path_in`).
pub fn mirror_path_for(hub: &str, source: &Source, taken: &Vec<String>) -> (p: String)
    ensures
        p@ == spec_mirror_path_in(hub@, *source, crate::assoc::views_of(taken@)),
{
    let plain = plain_mirror_path(hub, source);
    if crate::assoc::contains_string(taken, &plain) {
        suffixed_mirror_path(hub, source)
    } else {
        plain
    }
}

/// The hub entries of all `sources`, in order (see `spec_mirror_paths`).
pub fn mirror_paths(hub: &str, sources: &Vec<Source>) -> (r: Vec<String>)
    ensures
        crate::assoc::views_of(r@) == spec_mirror_paths(hub@, sources@),
{
    let mut r: Vec<String> = Vec::new();
    let mut k: usize = 0;
    while k < sources.len()
        invariant
            k <= sources@.len(),
            crate::assoc::views_of(r@) == spec_mirror_paths(hub@, sources@.take(k as int)),
        decreases sources@.len() - k,
    {
        let p = mirror_path_for(hub, &sources[k], &r);
        let ghost before = r@;
        r.push(p);
        proof {
            assert(sources@.take(k + 1).drop_last() =~= sources@.take(k as int));
            assert(sources@.take(k + 1).last() == sources@[k as int]);
            assert(crate::assoc::views_of(r@) =~= crate::assoc::views_of(before).push(p@));
        }
        k += 1;
    }
    proof {
        assert(sources@.take(sources@.len() as int) =~= sources@);
    }
    r
}

/// Whether an existing hub entry must be replaced before the link for a
/// source is made: for a file source, anything but a regular file that is
/// already a link to the source; for a folder source, anything that is
/// neither a directory nor a symbolic link.
pub open spec fn spec_should_replace(kind: SourceKind, is_file: bool, is_dir: bool, is_symlink: bool, hardlinked: bool) -> bool {
    match kind {
        SourceKind::File => !is_file || !hardlinked,
        SourceKind::Folder => !is_dir && !is_symlink,
    }
}

/// See `spec_should_replace`.
pub fn should_replace(kind: SourceKind, is_file: bool, is_dir: bool, is_symlink: bool, hardlinked: bool) -> (b: bool)
    ensures
        b == spec_should_replace(kind, is_file, is_dir, is_symlink, hardlinked),
{
    match kind {
        SourceKind::File => !is_file || !hardlinked,
        SourceKind::Folder => !is_dir && !is_symlink,
    }
}

/// `e` is the hub entry of one of the sources.
pub open spec fn is_wanted(hub: Seq<char>, sources: Seq<Source>, e: Seq<char>) -> bool {
    spec_mirror_paths(hub, sources).contains(e)
}

/// The entries of `entries` (paths inside the hub) that belong to no source, in order.
pub open spec fn spec_stale(hub: Seq<char>, sources: Seq<Source>, entries: Seq<Seq<char>>) -> Seq<Seq<char>>
    decreases entries.len(),
{
    if entries.len() == 0 {
        Seq::empty()
    } else if is_wanted(hub, sources, entries.last()) {
        spec_stale(hub, sources, entries.drop_last())
    } else {
        spec_stale(hub, sources, entries.drop_last()).push(entries.last())
    }
}

/// The hub entries that belong to no current source (see `spec_stale`);
/// entries are compared with the sources' mirror paths as text.
pub fn stale_entries(hub: &str, entries: &Vec<String>, sources: &Vec<Source>) -> (r: Vec<String>)
    ensures
        crate::assoc::views_of(r@) == spec_stale(hub@, sources@, crate::assoc::views_of(entries@)),
{
    let wanted = mirror_paths(hub, sources);
    let ghost es = crate::assoc::views_of(entries@);
    let mut r: Vec<String> = Vec::new();
    let mut i: usize = 0;
    while i < entries.len()
        invariant
            i <= entries@.len(),
            es == crate::assoc::views_of(entries@),
            crate::assoc::views_of(wanted@) == spec_mirror_paths(hub@, sources@),
            crate::assoc::views_of(r@) == spec_stale(hub@, sources@, es.take(i as int)),
        decreases entries@.len() - i,
    {
        let keep = !crate::assoc::contains_string(&wanted, &entries[i]);
        let ghost before = r@;
        proof {
            assert(es.take(i + 1).drop_last() =~= es.take(i as int));
            assert(es.take(i + 1).last() == entries@[i as int]@);
        }
        if keep {
            r.push(entries[i].clone());
            proof {
                assert(crate::assoc::views_of(r@) =~= crate::assoc::views_of(before).push(entries@[i as int]@));
            }
        }
        i += 1;
    }
    proof {
        assert(es.take(entries@.len() as int) =~= es);
    }
    r
}

proof fn lemma_paths_len(hub: Seq<char>, sources: Seq<Source>)
    ensures
        spec_mirror_paths(hub, sources).len() == sources.len(),
    decreases sources.len(),
{
    if sources.len() > 0 {
        lemma_paths_len(hub, sources.drop_last());
    }
}

proof fn lemma_paths_prefix(hub: Seq<char>, sources: Seq<Source>, n: int)
    requires
        0 <= n <= sources.len(),
    ensures
        spec_mirror_paths(hub, sources.take(n)) == spec_mirror_paths(hub, sources).take(n),
    decreases sources.len(),
{
    lemma_paths_len(hub, sources);
    if n == sources.len() {
        assert(sources.take(n) =~= sources);
        assert(spec_mirror_paths(hub, sources).take(n) =~= spec_mirror_paths(hub, sources));
    } else {
        let d = sources.drop_last();
        lemma_paths_prefix(hub, d, n);
        lemma_paths_len(hub, d);
        assert(d.take(n) =~= sources.take(n));
        assert(spec_mirror_paths(hub, d).take(n) =~= spec_mirror_paths(hub, sources).take(n));
    }
}

proof fn lemma_paths_at(hub: Seq<char>, sources: Seq<Source>, i: int)
    requires
        0 <= i < sources.len(),
    ensures
        spec_mirror_paths(hub, sources)[i] == spec_mirror_path_in(hub, sources[i], spec_mirror_paths(hub, sources.take(i))),
{
    lemma_paths_prefix(hub, sources, i + 1);
    lemma_paths_len(hub, sources);
    let t = sources.take(i + 1);
    assert(t.drop_last() =~= sources.take(i));
    assert(t.last() == sources[i]);
    assert(spec_mirror_paths(hub, t)[i] == spec_mirror_paths(hub, sources)[i]);
    lemma_paths_len(hub, t.drop_last());
}

/// Two sources whose entries would have the same name: the later one gets
/// its id appended, so it never takes the earlier one's entry.
pub proof fn law_later_namesake_gets_id(hub: Seq<char>, sources: Seq<Source>, i: int, j: int)
    requires
        0 <= i < j < sources.len(),
        spec_mirror_path(hub, sources[i]) == spec_mirror_path(hub, sources[j]),
    ensures
        spec_mirror_paths(hub, sources)[j] == spec_suffixed_path(hub, sources[j]),
{
    let plain = spec_mirror_path(hub, sources[i]);
    let all = spec_mirror_paths(hub, sources);
    lemma_paths_len(hub, sources);
    lemma_paths_at(hub, sources, i);
    lemma_paths_at(hub, sources, j);
    lemma_paths_prefix(hub, sources, i);
    lemma_paths_prefix(hub, sources, j);
    let tj = all.take(j);
    if spec_mirror_paths(hub, sources.take(i)).contains(plain) {
        let k = choose|k: int| 0 <= k < all.take(i).len() && all.take(i)[k] == plain;
        assert(tj[k] == plain);
    } else {
        assert(all[i] == plain);
        assert(tj[i] == plain);
    }
    assert(tj.contains(plain));
}

/// A sanitised name holds no reserved and no control character, has no
/// white space at either end, and does not end in a dot.
pub proof fn law_sanitized_name_is_safe(raw: Seq<char>)
    ensures
        forall|k: int| 0 <= k < spec_sanitize(raw).len() ==> !is_reserved(#[trigger] spec_sanitize(raw)[k])
            && !is_control(spec_sanitize(raw)[k]),
        spec_trim(spec_sanitize(raw)) == spec_sanitize(raw),
        spec_sanitize(raw).len() > 0 ==> spec_sanitize(raw).last() != '.' && !is_ws(spec_sanitize(raw).last()),
{
    let r = replace_unsafe(raw);
    assert forall|k: int| 0 <= k < r.len() implies !is_reserved(#[trigger] r[k]) && !is_control(r[k]) by {}
    let t = strip_tail(r);
    lemma_junk_start_back(r, r.len() as int);
    assert forall|k: int| 0 <= k < t.len() implies !is_reserved(#[trigger] t[k]) && !is_control(t[k]) by {
        assert(t[k] == r[k]);
    }
    let f = spec_trim(t);
    let a = crate::text::lemma_trim_sub(t);
    assert forall|k: int| 0 <= k < f.len() implies !is_reserved(#[trigger] f[k]) && !is_control(f[k]) by {
        assert(f[k] == t[a + k]);
    }
    crate::text::lemma_trim_idempotent(t);
    if f.len() > 0 {
        assert(t.len() > 0);
        assert(!is_tail_junk(t.last()));
        assert(crate::text::ws_start_back(t, t.len() as int) == t.len());
        crate::text::lemma_ws_end(t, 0);
        assert(f =~= t.subrange(crate::text::ws_end(t, 0), t.len() as int));
        assert(f.last() == t.last());
    }
}

proof fn lemma_junk_start_back(s: Seq<char>, e: int)
    requires
        0 <= e <= s.len(),
    ensures
        0 <= junk_start_back(s, e) <= e,
        0 < junk_start_back(s, e) ==> !is_tail_junk(s[junk_start_back(s, e) - 1]),
    decreases e,
{
    if 0 < e && is_tail_junk(s[e - 1]) {
        lemma_junk_start_back(s, e - 1);
    }
}

} // verus!
