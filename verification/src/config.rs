//! The settings file's place and the rules of the commands that change the
//! settings: choosing, adding, editing, ordering and removing sources,
//! labels of files, and where a new task goes.

use vstd::prelude::*;
use crate::assoc::{assoc_find, assoc_remove_at, assoc_set, distinct_keys, lemma_find_key, lookup};
use crate::error::AppError;
use crate::path::{file_name, join, parent, spec_file_name, spec_join, spec_parent};
use crate::text::{chars_of, spec_trim, string_of, trim_bounds};
use crate::registry::TaskRegistry;
use crate::types::{file_label_key, short_id, verbatim_prefix, AppConfig, Quadrant, QuickActionKind, Source, SourceKind};
use crate::watcher::IgnoreHashes;

verus! {

/// Everything the commands work on: the task index, the settings, the
/// hashes of the application's own writes, and where the settings are saved.
pub struct AppState {
    pub registry: TaskRegistry,
    pub config: AppConfig,
    pub ignore_hashes: IgnoreHashes,
    pub config_path: String,
}

impl AppState {
    /// A state with no tasks and no registered writes.
    pub fn new(config: AppConfig, config_path: String) -> (st: AppState)
        ensures
            st.registry.wf(),
            forall|id: Seq<char>| #[trigger] st.registry.task(id) is None,
            st.ignore_hashes.wf(),
            st.ignore_hashes@ == Set::<Seq<u8>>::empty(),
            st.config == config,
            st.config_path == config_path,
    {
        AppState { registry: TaskRegistry::new(), config, ignore_hashes: IgnoreHashes::new(), config_path }
    }
}

/// The settings file inside the application's configuration folder.
pub fn config_file(app_config_dir: &str) -> (p: String)
    ensures
        p@ == spec_join(app_config_dir@, "config.json"@),
{
    join(app_config_dir, "config.json")
}

/// Index of the first source with id `id`, or -1.
pub open spec fn source_index(srcs: Seq<Source>, id: Seq<char>) -> int
    decreases srcs.len(),
{
    if srcs.len() == 0 {
        -1
    } else if source_index(srcs.drop_last(), id) >= 0 {
        source_index(srcs.drop_last(), id)
    } else if srcs.last().id@ == id {
        srcs.len() - 1
    } else {
        -1
    }
}

pub proof fn lemma_source_index(srcs: Seq<Source>, id: Seq<char>)
    ensures
        -1 <= source_index(srcs, id) < srcs.len(),
        source_index(srcs, id) >= 0 ==> srcs[source_index(srcs, id)].id@ == id,
        forall|j: int| 0 <= j < srcs.len() && (j < source_index(srcs, id) || source_index(srcs, id) == -1) ==> #[trigger] srcs[j].id@ != id,
    decreases srcs.len(),
{
    if srcs.len() > 0 {
        lemma_source_index(srcs.drop_last(), id);
        assert forall|j: int| 0 <= j < srcs.len() - 1 implies srcs.drop_last()[j] == #[trigger] srcs[j] by {}
    }
}

/// Position of the first source with id `id`.
pub fn position_of_source(srcs: &Vec<Source>, id: &str) -> (r: Option<usize>)
    ensures
        match r {
            Some(i) => i as int == source_index(srcs@, id@) && i < srcs@.len() && srcs@[i as int].id@ == id@,
            None => source_index(srcs@, id@) == -1,
        },
{
    proof {
        lemma_source_index(srcs@, id@);
    }
    let idc = chars_of(id);
    let mut i: usize = 0;
    while i < srcs.len()
        invariant
            i <= srcs@.len(),
            idc@ == id@,
            forall|j: int| 0 <= j < i ==> #[trigger] srcs@[j].id@ != id@,
            -1 <= source_index(srcs@, id@) < srcs@.len(),
            source_index(srcs@, id@) >= 0 ==> srcs@[source_index(srcs@, id@)].id@ == id@,
            forall|j: int| 0 <= j < srcs@.len() && (j < source_index(srcs@, id@) || source_index(srcs@, id@) == -1) ==> #[trigger] srcs@[j].id@ != id@,
        decreases srcs@.len() - i,
    {
        if crate::registry::equals_chars(&chars_of(srcs[i].id.as_str()), id) {
            return Some(i);
        }
        i += 1;
    }
    None
}

pub open spec fn is_source_not_found(e: AppError, id: Seq<char>) -> bool {
    e matches AppError::SourceNotFound(s) && s@ == id
}

/// The source with id `id`: the first one with it, or `SourceNotFound`.
pub fn find_source_by_id(config: &AppConfig, source_id: &str) -> (r: Result<Source, AppError>)
    ensures
        match r {
            Ok(s) => source_index(config.sources@, source_id@) >= 0 && s == config.sources@[source_index(config.sources@, source_id@)],
            Err(e) => source_index(config.sources@, source_id@) == -1 && is_source_not_found(e, source_id@),
        },
{
    match position_of_source(&config.sources, source_id) {
        Some(i) => Ok(config.sources[i].clone()),
        None => Err(AppError::SourceNotFound(String::from_str(source_id))),
    }
}

/// Where a new task goes: the source named, else the default one; in a
/// folder source the inbox file, in a file source the file itself. An error
/// is `None` for "no source" and `Some(id)` for "no source with that id".
pub open spec fn spec_task_target(config: AppConfig, requested: Option<Seq<char>>) -> Result<(Source, Seq<char>), Option<Seq<char>>> {
    if config.sources@.len() == 0 {
        Err(None)
    } else {
        let wanted = match requested {
            Some(id) => Some(id),
            None => match config.default_source_id {
                Some(d) => Some(d@),
                None => None,
            },
        };
        match wanted {
            None => Err(None),
            Some(id) => {
                let i = source_index(config.sources@, id);
                if i < 0 {
                    Err(Some(id))
                } else {
                    let s = config.sources@[i];
                    Ok((s, match s.kind {
                        SourceKind::Folder => spec_join(s.path@, config.inbox_file@),
                        SourceKind::File => s.path@,
                    }))
                }
            },
        }
    }
}

pub open spec fn opt_view(o: Option<String>) -> Option<Seq<char>> {
    match o {
        Some(s) => Some(s@),
        None => None,
    }
}

/// The source and the file that receive a new task (see
/// `spec_task_target`): `NoSources` or `SourceNotFound` when there is none.
pub fn task_target(config: &AppConfig, source_id: Option<String>) -> (r: Result<(Source, String), AppError>)
    ensures
        match r {
            Ok((s, f)) => spec_task_target(*config, opt_view(source_id)) == Ok::<(Source, Seq<char>), Option<Seq<char>>>((s, f@)),
            Err(e) => match spec_task_target(*config, opt_view(source_id)) {
                Err(None) => e == AppError::NoSources,
                Err(Some(id)) => is_source_not_found(e, id),
                Ok(_) => false,
            },
        },
{
    if config.sources.len() == 0 {
        return Err(AppError::NoSources);
    }
    let target_id = match source_id {
        Some(id) => id,
        None => match &config.default_source_id {
            Some(d) => d.clone(),
            None => return Err(AppError::NoSources),
        },
    };
    match position_of_source(&config.sources, target_id.as_str()) {
        None => Err(AppError::SourceNotFound(target_id)),
        Some(i) => {
            let s = config.sources[i].clone();
            let f = match s.kind {
                SourceKind::Folder => join(s.path.as_str(), config.inbox_file.as_str()),
                SourceKind::File => s.path.clone(),
            };
            Ok((s, f))
        },
    }
}

/// `k` is the key `file_label_key` may give for `p` (see `simplified_path`).
pub open spec fn is_label_key(p: Seq<char>, k: Seq<char>) -> bool {
    k == p || (p.len() >= 4 && p.take(4) == verbatim_prefix() && k == p.skip(4))
}

/// `c` is an ASCII hexadecimal digit.
pub open spec fn is_hex_digit(c: char) -> bool {
    ('0' <= c && c <= '9') || ('a' <= c && c <= 'f') || ('A' <= c && c <= 'F')
}

/// A CSS hex colour: `#` and then 3, 6 or 8 hexadecimal digits.
pub open spec fn is_hex_color(c: Seq<char>) -> bool {
    &&& (c.len() == 4 || c.len() == 7 || c.len() == 9)
    &&& c[0] == '#'
    &&& forall|k: int| 1 <= k < c.len() ==> is_hex_digit(#[trigger] c[k])
}

/// Whether a text is a CSS hex colour (see `is_hex_color`).
pub fn hex_color(c: &str) -> (b: bool)
    ensures
        b == is_hex_color(c@),
{
    let cs = chars_of(c);
    let n = cs.len();
    if !(n == 4 || n == 7 || n == 9) || cs[0] != '#' {
        return false;
    }
    let mut k: usize = 1;
    while k < n
        invariant
            1 <= k <= n == cs@.len(),
            cs@ == c@,
            forall|m: int| 1 <= m < k ==> is_hex_digit(#[trigger] cs@[m]),
        decreases n - k,
    {
        let d = cs[k];
        if !(('0' <= d && d <= '9') || ('a' <= d && d <= 'f') || ('A' <= d && d <= 'F')) {
            assert(!is_hex_digit(cs@[k as int]));
            return false;
        }
        k += 1;
    }
    true
}

/// The colour kept for a source: a hex colour, or nothing.
pub open spec fn kept_color(color: Option<String>) -> Option<String> {
    match color {
        Some(c) => if is_hex_color(c@) {
            Some(c)
        } else {
            None
        },
        None => None,
    }
}

/// The label a new source gets: the one given when it is not blank, else
/// the name of its project root (the root given, or the folder itself, or
/// a file's parent folder).
pub open spec fn spec_resolved_label(canonical: Seq<char>, kind: SourceKind, label: Option<Seq<char>>, project_root: Option<Seq<char>>) -> Option<Seq<char>> {
    match label {
        Some(l) if spec_trim(l).len() > 0 => Some(l),
        _ => {
            let root = match project_root {
                Some(r) => r,
                None => match kind {
                    SourceKind::Folder => canonical,
                    SourceKind::File => match spec_parent(canonical) {
                        Some(q) => q,
                        None => canonical,
                    },
                },
            };
            spec_file_name(root)
        },
    }
}

/// `k` is an id `Source::id_for` may give for the path `p`.
pub open spec fn is_source_id(p: Seq<char>, k: Seq<char>) -> bool {
    k == short_id(p) || (p.len() >= 4 && p.take(4) == verbatim_prefix() && k == short_id(p.skip(4)))
}

/// Index of the first occurrence of `x`, or -1.
pub open spec fn first_index(ids: Seq<Seq<char>>, x: Seq<char>) -> int
    decreases ids.len(),
{
    if ids.len() == 0 {
        -1
    } else if first_index(ids.drop_last(), x) >= 0 {
        first_index(ids.drop_last(), x)
    } else if ids.last() == x {
        ids.len() - 1
    } else {
        -1
    }
}

proof fn lemma_first_index(ids: Seq<Seq<char>>, x: Seq<char>)
    ensures
        -1 <= first_index(ids, x) < ids.len(),
        first_index(ids, x) >= 0 ==> ids[first_index(ids, x)] == x,
        forall|j: int| 0 <= j < ids.len() && (j < first_index(ids, x) || first_index(ids, x) == -1) ==> #[trigger] ids[j] != x,
    decreases ids.len(),
{
    if ids.len() > 0 {
        lemma_first_index(ids.drop_last(), x);
        assert forall|j: int| 0 <= j < ids.len() - 1 implies ids.drop_last()[j] == #[trigger] ids[j] by {}
    }
}

fn index_in(ids: &Vec<String>, x: &str) -> (r: Option<usize>)
    ensures
        match r {
            Some(i) => i as int == first_index(crate::assoc::views_of(ids@), x@),
            None => first_index(crate::assoc::views_of(ids@), x@) == -1,
        },
{
    let ghost vs = crate::assoc::views_of(ids@);
    proof {
        lemma_first_index(vs, x@);
    }
    let mut i: usize = 0;
    while i < ids.len()
        invariant
            i <= ids@.len() == vs.len(),
            vs == crate::assoc::views_of(ids@),
            forall|j: int| 0 <= j < i ==> #[trigger] vs[j] != x@,
            -1 <= first_index(vs, x@) < vs.len(),
            first_index(vs, x@) >= 0 ==> vs[first_index(vs, x@)] == x@,
            forall|j: int| 0 <= j < vs.len() && (j < first_index(vs, x@) || first_index(vs, x@) == -1) ==> #[trigger] vs[j] != x@,
        decreases ids@.len() - i,
    {
        if crate::registry::equals_chars(&chars_of(ids[i].as_str()), x) {
            assert(vs[i as int] == x@);
            return Some(i);
        }
        i += 1;
    }
    None
}

/// The sources whose id first appears at position `v` of `ids`, in order.
pub open spec fn with_rank(srcs: Seq<Source>, ids: Seq<Seq<char>>, v: int) -> Seq<Source>
    decreases srcs.len(),
{
    if srcs.len() == 0 {
        Seq::empty()
    } else if first_index(ids, srcs.last().id@) == v {
        with_rank(srcs.drop_last(), ids, v).push(srcs.last())
    } else {
        with_rank(srcs.drop_last(), ids, v)
    }
}

/// The sources ranked by where their ids first appear in `ids`, ties in
/// their old order (a stable sort), taking ranks below `n`.
pub open spec fn reordered(srcs: Seq<Source>, ids: Seq<Seq<char>>, n: int) -> Seq<Source>
    decreases n,
{
    if n <= 0 {
        Seq::empty()
    } else {
        reordered(srcs, ids, n - 1) + with_rank(srcs, ids, n - 1)
    }
}

/// A new order is accepted when it names every source and is as long as
/// the list of sources.
pub open spec fn order_accepted(srcs: Seq<Source>, ids: Seq<Seq<char>>) -> bool {
    &&& ids.len() == srcs.len()
    &&& forall|i: int| 0 <= i < srcs.len() ==> first_index(ids, (#[trigger] srcs[i]).id@) >= 0
}

pub open spec fn is_command_failed(e: AppError, msg: Seq<char>) -> bool {
    e matches AppError::CommandFailed(m) && m@ == msg
}

/// Everything but the sources and the default source is unchanged.
pub open spec fn same_but_sources(a: AppConfig, b: AppConfig) -> bool {
    &&& a.inbox_file == b.inbox_file
    &&& a.always_on_top == b.always_on_top
    &&& a.file_labels == b.file_labels
    &&& a.enabled_quick_actions == b.enabled_quick_actions
    &&& a.hub_folder == b.hub_folder
    &&& a.auto_create_quadrant_headers == b.auto_create_quadrant_headers
    &&& a.hotkeys == b.hotkeys
}

/// The label stored for a file: the given one trimmed, or none when it is
/// missing or blank.
pub open spec fn new_label(label: Option<String>) -> Option<Seq<char>> {
    match label {
        Some(l) => if spec_trim(l@).len() > 0 {
            Some(spec_trim(l@))
        } else {
            None
        },
        None => None,
    }
}

impl AppConfig {
    /// Make `source_id` the default source, or clear the default with
    /// `None`; an id that names no source is refused with `SourceNotFound`.
    pub fn set_default_source(&mut self, source_id: Option<String>) -> (r: Result<(), AppError>)
        ensures
            same_but_sources(*old(self), *final(self)),
            final(self).sources == old(self).sources,
            match r {
                Ok(()) => final(self).default_source_id == source_id && (source_id matches Some(id) ==> source_index(old(self).sources@, id@) >= 0),
                Err(e) => source_id matches Some(id) && source_index(old(self).sources@, id@) == -1 && is_source_not_found(e, id@)
                    && final(self).default_source_id == old(self).default_source_id,
            },
    {
        if let Some(id) = &source_id {
            if position_of_source(&self.sources, id.as_str()).is_none() {
                return Err(AppError::SourceNotFound(id.clone()));
            }
        }
        self.default_source_id = source_id;
        Ok(())
    }

    /// Set the display label of a single file, trimmed; a missing or blank
    /// label removes it. The file is keyed by `file_label_key`.
    pub fn set_file_label(&mut self, file_path: &str, label: Option<String>)
        requires
            distinct_keys(old(self).file_labels@),
        ensures
            distinct_keys(final(self).file_labels@),
            final(self).sources == old(self).sources,
            final(self).default_source_id == old(self).default_source_id,
            final(self).inbox_file == old(self).inbox_file,
            final(self).hub_folder == old(self).hub_folder,
            exists|k: Seq<char>| is_label_key(file_path@, k) && forall|q: Seq<char>| #[trigger] opt_view(lookup(final(self).file_labels@, q))
                == if q == k { new_label(label) } else { opt_view(lookup(old(self).file_labels@, q)) },
    {
        let key = file_label_key(file_path);
        let ghost k = key@;
        let ghost before = self.file_labels@;
        assert(is_label_key(file_path@, k));
        match label {
            Some(l) => {
                let lc = chars_of(l.as_str());
                let (a, e) = trim_bounds(&lc);
                if a < e {
                    let t = string_of(&lc, a, e);
                    assoc_set(&mut self.file_labels, key, t);
                    assert(forall|q: Seq<char>| #[trigger] opt_view(lookup(self.file_labels@, q))
                        == if q == k { new_label(label) } else { opt_view(lookup(before, q)) });
                    return;
                }
                proof {
                    assert(spec_trim(l@).len() == 0);
                }
            },
            None => {},
        }
        match assoc_find(&self.file_labels, key.as_str()) {
            Some(i) => {
                assoc_remove_at(&mut self.file_labels, i);
                proof {
                    lemma_find_key(before, k);
                    assert(forall|q: Seq<char>| #[trigger] opt_view(lookup(self.file_labels@, q))
                        == if q == k { new_label(label) } else { opt_view(lookup(before, q)) });
                }
            },
            None => {
                proof {
                    lemma_find_key(before, k);
                    assert forall|q: Seq<char>| #[trigger] opt_view(lookup(self.file_labels@, q))
                        == if q == k { new_label(label) } else { opt_view(lookup(before, q)) } by {
                        if q == k {
                            crate::assoc::lemma_find_key_exact(before, k, -1);
                        }
                    }
                }
            },
        }
    }

    /// Edit a source's label, project root and colour; a colour that is not
    /// a hex colour is dropped. `SourceNotFound` when no source has the id.
    pub fn update_source(&mut self, source_id: &str, label: Option<String>, project_root: Option<String>, color: Option<String>) -> (r: Result<Source, AppError>)
        ensures
            same_but_sources(*old(self), *final(self)),
            final(self).default_source_id == old(self).default_source_id,
            match r {
                Ok(s) => {
                    let i = source_index(old(self).sources@, source_id@);
                    &&& i >= 0
                    &&& final(self).sources@ == old(self).sources@.update(i, s)
                    &&& s.id == old(self).sources@[i].id
                    &&& s.path == old(self).sources@[i].path
                    &&& s.kind == old(self).sources@[i].kind
                    &&& s.label == label
                    &&& s.project_root == project_root
                    &&& s.color == kept_color(color)
                },
                Err(e) => source_index(old(self).sources@, source_id@) == -1 && is_source_not_found(e, source_id@)
                    && final(self).sources == old(self).sources,
            },
    {
        let i = match position_of_source(&self.sources, source_id) {
            Some(i) => i,
            None => return Err(AppError::SourceNotFound(String::from_str(source_id))),
        };
        let kept = match color {
            Some(c) => if hex_color(c.as_str()) {
                Some(c)
            } else {
                None
            },
            None => None,
        };
        let updated = Source {
            id: self.sources[i].id.clone(),
            path: self.sources[i].path.clone(),
            kind: self.sources[i].kind,
            label,
            project_root,
            color: kept,
        };
        self.sources.set(i, updated.clone());
        Ok(updated)
    }

    /// Remove a source; when it was the default, the first remaining source
    /// (if any) becomes the default. `SourceNotFound` when no source has the id.
    pub fn remove_source(&mut self, source_id: &str) -> (r: Result<Source, AppError>)
        ensures
            same_but_sources(*old(self), *final(self)),
            match r {
                Ok(s) => {
                    let i = source_index(old(self).sources@, source_id@);
                    &&& i >= 0
                    &&& s == old(self).sources@[i]
                    &&& final(self).sources@ == old(self).sources@.remove(i)
                    &&& final(self).default_source_id == if opt_view(old(self).default_source_id) == Some(source_id@) {
                        if final(self).sources@.len() > 0 { Some(final(self).sources@[0].id) } else { None }
                    } else {
                        old(self).default_source_id
                    }
                },
                Err(e) => source_index(old(self).sources@, source_id@) == -1 && is_source_not_found(e, source_id@)
                    && final(self).sources == old(self).sources
                    && final(self).default_source_id == old(self).default_source_id,
            },
    {
        let i = match position_of_source(&self.sources, source_id) {
            Some(i) => i,
            None => return Err(AppError::SourceNotFound(String::from_str(source_id))),
        };
        let removed = self.sources.remove(i);
        let was_default = match &self.default_source_id {
            Some(d) => crate::registry::equals_chars(&chars_of(d.as_str()), source_id),
            None => false,
        };
        if was_default {
            self.default_source_id = if self.sources.len() > 0 {
                Some(self.sources[0].id.clone())
            } else {
                None
            };
        }
        Ok(removed)
    }

    /// Add a source for the canonical path `canonical` (checked to exist and
    /// to be of the right kind by the caller): its id comes from the path,
    /// a second source with the same id is refused with `DuplicateSource`,
    /// a blank label is replaced by the project root's name, and the first
    /// source becomes the default.
    pub fn add_source(&mut self, canonical: String, kind: SourceKind, label: Option<String>, project_root: Option<String>) -> (r: Result<Source, AppError>)
        ensures
            same_but_sources(*old(self), *final(self)),
            match r {
                Ok(s) => {
                    &&& is_source_id(canonical@, s.id@)
                    &&& source_index(old(self).sources@, s.id@) == -1
                    &&& s.path == canonical
                    &&& s.kind == kind
                    &&& opt_view(s.label) == spec_resolved_label(canonical@, kind, opt_view(label), opt_view(project_root))
                    &&& s.project_root == project_root
                    &&& s.color is None
                    &&& final(self).sources@ == old(self).sources@.push(s)
                    &&& final(self).default_source_id == if old(self).default_source_id is None { Some(s.id) } else { old(self).default_source_id }
                },
                Err(e) => {
                    &&& e matches AppError::DuplicateSource(p) && p == canonical
                    &&& exists|k: Seq<char>| is_source_id(canonical@, k) && source_index(old(self).sources@, k) >= 0
                    &&& final(self).sources == old(self).sources
                    &&& final(self).default_source_id == old(self).default_source_id
                },
            },
    {
        let id = Source::id_for(canonical.as_str());
        assert(is_source_id(canonical@, id@));
        if position_of_source(&self.sources, id.as_str()).is_some() {
            return Err(AppError::DuplicateSource(canonical));
        }
        let given = match label {
            Some(l) => {
                let t = crate::text::trimmed_chars(l.as_str());
                if t.len() > 0 {
                    Some(l)
                } else {
                    None
                }
            },
            None => None,
        };
        let resolved = match given {
            Some(l) => Some(l),
            None => {
                let root = match &project_root {
                    Some(r) => r.clone(),
                    None => match kind {
                        SourceKind::Folder => canonical.clone(),
                        SourceKind::File => match parent(canonical.as_str()) {
                            Some(q) => q,
                            None => canonical.clone(),
                        },
                    },
                };
                file_name(root.as_str())
            },
        };
        let source = Source { id, path: canonical, kind, label: resolved, project_root, color: None };
        self.sources.push(source.clone());
        if self.default_source_id.is_none() {
            self.default_source_id = Some(source.id.clone());
        }
        Ok(source)
    }

    /// Put the sources in the order of `ordered_ids`: each source goes to
    /// the first position of its id, sources with equal positions keep
    /// their order. A list that does not name every source, or differs in
    /// length, is refused and nothing changes.
    pub fn reorder_sources(&mut self, ordered_ids: &Vec<String>) -> (r: Result<(), AppError>)
        ensures
            same_but_sources(*old(self), *final(self)),
            final(self).default_source_id == old(self).default_source_id,
            match r {
                Ok(()) => order_accepted(old(self).sources@, crate::assoc::views_of(ordered_ids@))
                    && final(self).sources@ == reordered(old(self).sources@, crate::assoc::views_of(ordered_ids@), ordered_ids@.len() as int),
                Err(e) => !order_accepted(old(self).sources@, crate::assoc::views_of(ordered_ids@))
                    && is_command_failed(e, "reorder list does not match current sources"@)
                    && final(self).sources == old(self).sources,
            },
    {
        let ghost ids = crate::assoc::views_of(ordered_ids@);
        let n = self.sources.len();
        let mut ranks: Vec<usize> = Vec::new();
        let mut i: usize = 0;
        while i < n
            invariant
                i <= n == self.sources@.len(),
                ids == crate::assoc::views_of(ordered_ids@),
                ranks@.len() == i,
                forall|j: int| 0 <= j < i ==> first_index(ids, (#[trigger] self.sources@[j]).id@) >= 0
                    && ranks@[j] as int == first_index(ids, self.sources@[j].id@),
            decreases n - i,
        {
            match index_in(ordered_ids, self.sources[i].id.as_str()) {
                Some(k) => ranks.push(k),
                None => {
                    return Err(AppError::CommandFailed(String::from_str("reorder list does not match current sources")));
                },
            }
            i += 1;
        }
        if ordered_ids.len() != n {
            return Err(AppError::CommandFailed(String::from_str("reorder list does not match current sources")));
        }
        let ghost srcs = self.sources@;
        let mut out: Vec<Source> = Vec::new();
        let mut v: usize = 0;
        while v < n
            invariant
                v <= n == srcs.len() == ranks@.len(),
                srcs == self.sources@,
                forall|j: int| 0 <= j < n ==> #[trigger] ranks@[j] as int == first_index(ids, srcs[j].id@),
                out@ == reordered(srcs, ids, v as int),
            decreases n - v,
        {
            let mut j: usize = 0;
            let ghost base = out@;
            while j < n
                invariant
                    j <= n == srcs.len() == ranks@.len(),
                    v < n,
                    srcs == self.sources@,
                    forall|m: int| 0 <= m < n ==> #[trigger] ranks@[m] as int == first_index(ids, srcs[m].id@),
                    base == reordered(srcs, ids, v as int),
                    out@ == base + with_rank(srcs.take(j as int), ids, v as int),
                decreases n - j,
            {
                let ghost prev = out@;
                if ranks[j] == v {
                    out.push(self.sources[j].clone());
                }
                proof {
                    assert(srcs.take(j + 1).drop_last() =~= srcs.take(j as int));
                    assert(srcs.take(j + 1).last() == srcs[j as int]);
                    if ranks@[j as int] == v {
                        assert(out@ =~= base + with_rank(srcs.take(j + 1), ids, v as int));
                    } else {
                        assert(out@ =~= base + with_rank(srcs.take(j + 1), ids, v as int));
                    }
                }
                j += 1;
            }
            proof {
                assert(srcs.take(n as int) =~= srcs);
            }
            v += 1;
        }
        self.sources = out;
        Ok(())
    }
}

/// Whether editing a task moves it to another quadrant section: only when
/// a move was asked for and the target differs from where it is.
pub fn moves_quadrant(change_quadrant: bool, new_quadrant: Option<Quadrant>, current: Option<Quadrant>) -> (b: bool)
    ensures
        b == (change_quadrant && new_quadrant != current),
{
    if !change_quadrant {
        return false;
    }
    match (new_quadrant, current) {
        (Some(a), Some(c)) => a != c,
        (None, None) => false,
        _ => true,
    }
}

/// The multiset of what a rank holds grows by one source when that source
/// is added with that rank.
proof fn lemma_reordered_push(srcs: Seq<Source>, ids: Seq<Seq<char>>, x: Source, n: int)
    requires
        n >= 0,
    ensures
        reordered(srcs.push(x), ids, n).to_multiset() == if 0 <= first_index(ids, x.id@) < n {
            reordered(srcs, ids, n).to_multiset().insert(x)
        } else {
            reordered(srcs, ids, n).to_multiset()
        },
    decreases n,
{
    broadcast use vstd::multiset::group_multiset_axioms;
    broadcast use vstd::seq_lib::group_to_multiset_ensures;
    if n > 0 {
        lemma_reordered_push(srcs, ids, x, n - 1);
        let p = srcs.push(x);
        assert(p.drop_last() =~= srcs);
        let a = reordered(srcs, ids, n - 1);
        let w = with_rank(srcs, ids, n - 1);
        let a2 = reordered(p, ids, n - 1);
        let w2 = with_rank(p, ids, n - 1);
        vstd::seq_lib::lemma_multiset_commutative(a, w);
        vstd::seq_lib::lemma_multiset_commutative(a2, w2);
        if first_index(ids, x.id@) == n - 1 {
            assert(w2 == w.push(x));
        } else {
            assert(w2 == w);
        }
        assert(reordered(p, ids, n).to_multiset() =~= (if 0 <= first_index(ids, x.id@) < n {
            reordered(srcs, ids, n).to_multiset().insert(x)
        } else {
            reordered(srcs, ids, n).to_multiset()
        }));
    } else {
        assert(reordered(srcs.push(x), ids, n) =~= Seq::<Source>::empty());
        assert(reordered(srcs, ids, n) =~= Seq::<Source>::empty());
    }
}

/// An accepted reorder keeps every source, each as often as before: no
/// source is dropped or doubled, only the order changes.
pub proof fn law_reorder_keeps_sources(srcs: Seq<Source>, ids: Seq<Seq<char>>)
    requires
        order_accepted(srcs, ids),
    ensures
        reordered(srcs, ids, ids.len() as int).to_multiset() == srcs.to_multiset(),
{
    lemma_reordered_keeps(srcs, ids);
}

proof fn lemma_reordered_keeps(srcs: Seq<Source>, ids: Seq<Seq<char>>)
    requires
        forall|i: int| 0 <= i < srcs.len() ==> first_index(ids, (#[trigger] srcs[i]).id@) >= 0,
    ensures
        reordered(srcs, ids, ids.len() as int).to_multiset() == srcs.to_multiset(),
    decreases srcs.len(),
{
    broadcast use vstd::seq_lib::group_to_multiset_ensures;
    let n = ids.len() as int;
    if srcs.len() == 0 {
        lemma_reordered_empty(ids, n);
        assert(srcs =~= Seq::<Source>::empty());
    } else {
        let p = srcs.drop_last();
        let x = srcs.last();
        assert forall|i: int| 0 <= i < p.len() implies first_index(ids, (#[trigger] p[i]).id@) >= 0 by {
            assert(p[i] == srcs[i]);
        }
        lemma_first_index(ids, x.id@);
        lemma_reordered_keeps(p, ids);
        assert(p.push(x) =~= srcs);
        lemma_reordered_push(p, ids, x, n);
        assert(first_index(ids, x.id@) >= 0) by {
            assert(srcs[srcs.len() - 1] == x);
        }
    }
}

proof fn lemma_reordered_empty(ids: Seq<Seq<char>>, n: int)
    requires
        n >= 0,
    ensures
        reordered(Seq::<Source>::empty(), ids, n) == Seq::<Source>::empty(),
    decreases n,
{
    if n > 0 {
        lemma_reordered_empty(ids, n - 1);
        assert(with_rank(Seq::<Source>::empty(), ids, n - 1) == Seq::<Source>::empty());
        assert(reordered(Seq::<Source>::empty(), ids, n) =~= Seq::<Source>::empty());
    }
}

/// The folder a quick action opens for a source: the source's own path for
/// revealing it in the file manager, its effective project root otherwise.
pub open spec fn spec_quick_action_target(source: Source, kind: QuickActionKind) -> Seq<char> {
    match kind {
        QuickActionKind::Reveal => source.path@,
        _ => source.spec_effective_root(),
    }
}

/// See `spec_quick_action_target`.
pub fn quick_action_target(source: &Source, kind: QuickActionKind) -> (p: String)
    ensures
        p@ == spec_quick_action_target(*source, kind),
{
    match kind {
        QuickActionKind::Reveal => source.path.clone(),
        _ => source.effective_project_root(),
    }
}

/// The hub folder to open, or `CommandFailed` when none is configured.
pub fn hub_target(config: &AppConfig) -> (r: Result<String, AppError>)
    ensures
        match r {
            Ok(h) => config.hub_folder == Some(h),
            Err(e) => config.hub_folder is None && is_command_failed(e, "hub folder not configured"@),
        },
{
    match &config.hub_folder {
        Some(h) => Ok(h.clone()),
        None => Err(AppError::CommandFailed(String::from_str("hub folder not configured"))),
    }
}

} // verus!
