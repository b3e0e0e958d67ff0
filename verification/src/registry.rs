//! The in-memory index of every task found in the watched files, kept per
//! file so that one file can be re-read without touching the others.

use vstd::prelude::*;
use crate::assoc::{assoc_find, assoc_remove_at, assoc_set, contains_string, distinct_keys, find_key, lemma_find_key, lemma_find_key_exact, lemma_lookup_none, lemma_lookup_push, lookup, views_of};
use crate::path::{extension, file_name, lemma_path_lt_irreflexive, lemma_path_lt_transitive, path_less, path_lt, spec_extension, spec_file_name};
use crate::text::chars_of;
use crate::types::Task;

verus! {

/// Every known task by id, and the ids read from each file.
pub struct TaskRegistry {
    /// (id, task) pairs with distinct ids.
    tasks: Vec<(String, Task)>,
    /// (file key, ids of the tasks read from that file) pairs with distinct keys.
    by_file: Vec<(String, Vec<String>)>,
}

/// The last task of `ts` with the id `id`.
pub open spec fn last_with_id(ts: Seq<Task>, id: Seq<char>) -> Option<Task>
    decreases ts.len(),
{
    if ts.len() == 0 {
        None
    } else if ts.last().id@ == id {
        Some(ts.last())
    } else {
        last_with_id(ts.drop_last(), id)
    }
}

/// The ids of a sequence of tasks, in order.
pub open spec fn ids_of(ts: Seq<Task>) -> Seq<Seq<char>> {
    Seq::new(ts.len(), |i: int| ts[i].id@)
}

/// The task with id `id` after a file whose previous ids were `old_ids` is
/// read again: a task read from the file now wins; otherwise a task that
/// came from the file is gone; otherwise nothing changes.
pub open spec fn refreshed(
    before: Option<Task>,
    old_ids: Option<Seq<Seq<char>>>,
    parsed: Option<Seq<Task>>,
    id: Seq<char>,
) -> Option<Task> {
    let fresh = match parsed {
        Some(ts) => last_with_id(ts, id),
        None => None,
    };
    if fresh is Some {
        fresh
    } else if old_ids matches Some(ids) && ids.contains(id) {
        None
    } else {
        before
    }
}

pub open spec fn opt_tasks(o: Option<Vec<Task>>) -> Option<Seq<Task>> {
    match o {
        Some(v) => Some(v@),
        None => None,
    }
}

/// `x` is listed before `y`: by file path (see `path_lt`), then by line.
pub open spec fn place_lt(x: Task, y: Task) -> bool {
    path_lt(x.source_file@, y.source_file@) || (x.source_file@ == y.source_file@ && x.line_number
        < y.line_number)
}

/// The tasks are listed by file path, then by line.
pub open spec fn in_place_order(r: Seq<Task>) -> bool {
    forall|i: int, j: int| 0 <= i < j < r.len() ==> !place_lt(#[trigger] r[j], #[trigger] r[i])
}

pub proof fn lemma_place_lt_transitive(x: Task, y: Task, z: Task)
    requires
        place_lt(x, y),
        place_lt(y, z),
    ensures
        place_lt(x, z),
{
    if path_lt(x.source_file@, y.source_file@) && path_lt(y.source_file@, z.source_file@) {
        lemma_path_lt_transitive(x.source_file@, y.source_file@, z.source_file@);
    }
}

pub proof fn lemma_place_lt_irreflexive(x: Task)
    ensures
        !place_lt(x, x),
{
    lemma_path_lt_irreflexive(x.source_file@);
}

/// Whether `x` is listed before `y`.
fn place_less(x: &Task, y: &Task) -> (r: bool)
    ensures
        r == place_lt(*x, *y),
{
    let xf = chars_of(x.source_file.as_str());
    let yf = chars_of(y.source_file.as_str());
    if path_less(&xf, &yf) {
        true
    } else if path_less(&yf, &xf) {
        false
    } else {
        proof {
            if xf@ != yf@ {
                crate::path::lemma_path_lt_total(xf@, yf@);
            }
        }
        x.line_number < y.line_number
    }
}

/// Inserting `x` before the first task it is listed before keeps the order
/// and, when its id is new, the ids distinct.
proof fn lemma_insert_in_order(r: Seq<Task>, p: int, x: Task)
    requires
        in_place_order(r),
        0 <= p <= r.len(),
        forall|a: int| 0 <= a < p ==> !place_lt(x, #[trigger] r[a]),
        p < r.len() ==> place_lt(x, r[p]),
        forall|a: int, b: int| 0 <= a < b < r.len() ==> (#[trigger] r[a]).id@ != (#[trigger] r[b]).id@,
        forall|a: int| 0 <= a < r.len() ==> (#[trigger] r[a]).id@ != x.id@,
    ensures
        in_place_order(r.insert(p, x)),
        forall|a: int, b: int| 0 <= a < b < r.len() + 1 ==> (#[trigger] r.insert(p, x)[a]).id@ != (#[trigger] r.insert(p, x)[b]).id@,
{
    let nr = r.insert(p, x);
    assert forall|a: int, b: int| 0 <= a < b < nr.len() implies !place_lt(#[trigger] nr[b], #[trigger] nr[a]) by {
        if b < p {
        } else if b == p {
            assert(nr[a] == r[a]);
        } else if a < p {
            assert(nr[a] == r[a]);
            assert(nr[b] == r[b - 1]);
        } else if a == p {
            assert(nr[b] == r[b - 1]);
            if place_lt(r[b - 1], x) {
                lemma_place_lt_transitive(r[b - 1], x, r[p]);
                if b - 1 == p {
                    lemma_place_lt_irreflexive(r[p]);
                }
            }
        } else {
            assert(nr[a] == r[a - 1]);
            assert(nr[b] == r[b - 1]);
        }
    }
    assert forall|a: int, b: int| 0 <= a < b < nr.len() implies (#[trigger] nr[a]).id@ != (#[trigger] nr[b]).id@ by {
        if b < p {
        } else if b == p {
            assert(nr[a] == r[a]);
        } else if a < p {
            assert(nr[a] == r[a]);
            assert(nr[b] == r[b - 1]);
        } else if a == p {
            assert(nr[b] == r[b - 1]);
        } else {
            assert(nr[a] == r[a - 1]);
            assert(nr[b] == r[b - 1]);
        }
    }
}

/// Insert `x` into an ordered listing before the first task it is listed
/// before; gives the position.
fn insert_in_order(r: &mut Vec<Task>, x: Task) -> (p: usize)
    requires
        in_place_order(old(r)@),
        forall|a: int, b: int| 0 <= a < b < old(r)@.len() ==> (#[trigger] old(r)@[a]).id@ != (#[trigger] old(r)@[b]).id@,
        forall|a: int| 0 <= a < old(r)@.len() ==> (#[trigger] old(r)@[a]).id@ != x.id@,
    ensures
        p <= old(r)@.len(),
        final(r)@ == old(r)@.insert(p as int, x),
        in_place_order(final(r)@),
        forall|a: int, b: int| 0 <= a < b < final(r)@.len() ==> (#[trigger] final(r)@[a]).id@ != (#[trigger] final(r)@[b]).id@,
{
    let mut p: usize = 0;
    while p < r.len() && !place_less(&x, &r[p])
        invariant
            p <= r@.len(),
            forall|a: int| 0 <= a < p ==> !place_lt(x, #[trigger] r@[a]),
        decreases r@.len() - p,
    {
        p += 1;
    }
    proof {
        lemma_insert_in_order(r@, p as int, x);
    }
    r.insert(p, x);
    p
}

/// One step of listing the pairs `ts`: the `i`-th task inserted at `p`.
/// `src[a]` is the pair that `r[a]` came from, `pos[m]` where the task of
/// pair `m` stands in `r`.
proof fn lemma_listing_step(ts: Seq<(String, Task)>, i: int, r: Seq<Task>, p: int, src: Seq<int>, pos: Seq<int>) -> (res: (Seq<int>, Seq<int>))
    requires
        0 <= i < ts.len(),
        0 <= p <= r.len(),
        src.len() == r.len(),
        pos.len() == i,
        forall|a: int| 0 <= a < r.len() ==> 0 <= #[trigger] src[a] < i && r[a] == ts[src[a]].1,
        forall|m: int| 0 <= m < i ==> 0 <= #[trigger] pos[m] < r.len() && r[pos[m]].id@ == ts[m].0@,
        ts[i].0@ == ts[i].1.id@,
    ensures
        res.0.len() == r.len() + 1,
        res.1.len() == i + 1,
        forall|a: int| 0 <= a < r.len() + 1 ==> 0 <= #[trigger] res.0[a] < i + 1 && r.insert(p, ts[i].1)[a] == ts[res.0[a]].1,
        forall|m: int| 0 <= m < i + 1 ==> 0 <= #[trigger] res.1[m] < r.len() + 1 && r.insert(p, ts[i].1)[res.1[m]].id@ == ts[m].0@,
{
    let nr = r.insert(p, ts[i].1);
    let nsrc = src.insert(p, i);
    let npos = Seq::new(i as nat, |m: int| if pos[m] >= p { pos[m] + 1 } else { pos[m] }).push(p);
    assert forall|a: int| 0 <= a < r.len() + 1 implies 0 <= #[trigger] nsrc[a] < i + 1 && nr[a] == ts[nsrc[a]].1 by {
        if a < p {
            assert(nr[a] == r[a] && nsrc[a] == src[a]);
        } else if a > p {
            assert(nr[a] == r[a - 1] && nsrc[a] == src[a - 1]);
        }
    }
    assert forall|m: int| 0 <= m < i + 1 implies 0 <= #[trigger] npos[m] < r.len() + 1 && nr[npos[m]].id@ == ts[m].0@ by {
        if m < i {
            if pos[m] >= p {
                assert(nr[pos[m] + 1] == r[pos[m]]);
            } else {
                assert(nr[pos[m]] == r[pos[m]]);
            }
        }
    }
    (nsrc, npos)
}

impl TaskRegistry {
    /// The task with id `id`, if any.
    pub closed spec fn task(&self, id: Seq<char>) -> Option<Task> {
        lookup(self.tasks@, id)
    }

    /// The ids read from the file with key `key`, when it was read.
    pub closed spec fn file_ids(&self, key: Seq<char>) -> Option<Seq<Seq<char>>> {
        match lookup(self.by_file@, key) {
            Some(ids) => Some(views_of(ids@)),
            None => None,
        }
    }

    /// Internal consistency: ids and keys are unique and each task is
    /// filed under its own id.
    pub closed spec fn wf(&self) -> bool {
        &&& distinct_keys(self.tasks@)
        &&& distinct_keys(self.by_file@)
        &&& forall|i: int| 0 <= i < self.tasks@.len() ==> (#[trigger] self.tasks@[i]).0@ == self.tasks@[i].1.id@
    }

    /// An empty registry.
    pub fn new() -> (r: TaskRegistry)
        ensures
            r.wf(),
            forall|id: Seq<char>| #[trigger] r.task(id) is None,
            forall|k: Seq<char>| #[trigger] r.file_ids(k) is None,
    {
        let r = TaskRegistry { tasks: Vec::new(), by_file: Vec::new() };
        proof {
            assert forall|id: Seq<char>| #[trigger] r.task(id) is None by {
                lemma_lookup_none(r.tasks@, id);
            }
            assert forall|k: Seq<char>| #[trigger] r.file_ids(k) is None by {
                lemma_lookup_none(r.by_file@, k);
            }
        }
        r
    }

    /// The task with id `id`.
    pub fn get(&self, id: &str) -> (r: Option<&Task>)
        requires
            self.wf(),
        ensures
            match r {
                Some(t) => self.task(id@) == Some(*t),
                None => self.task(id@) is None,
            },
    {
        match assoc_find(&self.tasks, id) {
            Some(i) => Some(&self.tasks[i].1),
            None => None,
        }
    }

    /// Drop the tasks whose ids are in `drop`.
    fn remove_ids(&mut self, drop: &Vec<String>)
        requires
            old(self).wf(),
        ensures
            final(self).wf(),
            final(self).by_file == old(self).by_file,
            forall|q: Seq<char>| #[trigger] final(self).task(q) == if views_of(drop@).contains(q) { None } else { old(self).task(q) },
    {
        let ghost old_v = self.tasks@;
        let mut out: Vec<(String, Task)> = Vec::new();
        let mut i: usize = 0;
        while i < self.tasks.len()
            invariant
                i <= old_v.len(),
                self.tasks@ == old_v,
                distinct_keys(old_v),
                forall|j: int| 0 <= j < old_v.len() ==> (#[trigger] old_v[j]).0@ == old_v[j].1.id@,
                forall|j: int| 0 <= j < out@.len() ==> (#[trigger] out@[j]).0@ == out@[j].1.id@,
                forall|j: int| 0 <= j < out@.len() ==> exists|m: int| 0 <= m < i && (#[trigger] out@[j]).0@ == old_v[m].0@,
                distinct_keys(out@),
                forall|k: Seq<char>| #[trigger] lookup(out@, k) == if views_of(drop@).contains(k) { None } else { lookup(old_v.take(i as int), k) },
            decreases old_v.len() - i,
        {
            let ghost prev = out@;
            let ghost x = old_v[i as int];
            proof {
                assert(old_v.take(i + 1) =~= old_v.take(i as int).push(x));
                assert forall|m: int| 0 <= m < i implies #[trigger] old_v.take(i as int)[m].0@ != x.0@ by {
                    assert(old_v.take(i as int)[m] == old_v[m]);
                }
                lemma_lookup_none(old_v.take(i as int), x.0@);
            }
            let keep = !contains_string(drop, &self.tasks[i].0);
            if keep {
                let pair = (self.tasks[i].0.clone(), self.tasks[i].1.clone());
                out.push(pair);
                proof {
                    assert forall|k: Seq<char>| #[trigger] lookup(out@, k) == if views_of(drop@).contains(k) { None } else { lookup(old_v.take(i + 1), k) } by {
                        lemma_lookup_push(prev, pair, k);
                        lemma_lookup_push(old_v.take(i as int), x, k);
                        if k == x.0@ {
                            assert forall|j: int| 0 <= j < prev.len() implies #[trigger] prev[j].0@ != k by {
                                let m = choose|m: int| 0 <= m < i && prev[j].0@ == old_v[m].0@;
                            }
                            lemma_lookup_none(prev, k);
                        }
                    }
                    assert forall|a: int, b: int| 0 <= a < b < out@.len() implies (#[trigger] out@[a]).0@ != (#[trigger] out@[b]).0@ by {
                        if b == out@.len() - 1 {
                            let m = choose|m: int| 0 <= m < i && prev[a].0@ == old_v[m].0@;
                        } else {
                            assert(out@[a] == prev[a]);
                            assert(out@[b] == prev[b]);
                        }
                    }
                    assert forall|j: int| 0 <= j < out@.len() implies exists|m: int| 0 <= m < i + 1 && (#[trigger] out@[j]).0@ == old_v[m].0@ by {
                        if j < prev.len() {
                            assert(out@[j] == prev[j]);
                            let m = choose|m: int| 0 <= m < i && prev[j].0@ == old_v[m].0@;
                            assert(0 <= m < i + 1 && out@[j].0@ == old_v[m].0@);
                        } else {
                            assert(out@[j].0@ == old_v[i as int].0@);
                        }
                    }
                    assert forall|j: int| 0 <= j < out@.len() implies (#[trigger] out@[j]).0@ == out@[j].1.id@ by {
                        if j < prev.len() {
                            assert(out@[j] == prev[j]);
                        }
                    }
                }
            } else {
                proof {
                    assert forall|k: Seq<char>| #[trigger] lookup(out@, k) == if views_of(drop@).contains(k) { None } else { lookup(old_v.take(i + 1), k) } by {
                        lemma_lookup_push(old_v.take(i as int), x, k);
                        if k == x.0@ {
                            assert(views_of(drop@).contains(k));
                        }
                    }
                }
            }
            i += 1;
        }
        proof {
            assert(old_v.take(old_v.len() as int) =~= old_v);
        }
        self.tasks = out;
    }

    /// Record what a file now holds. `key` identifies the file; `parsed` is
    /// the tasks read from it, or `None` when the file is gone (or could not
    /// be read). The tasks read from it before are dropped first.
    pub fn refresh_file(&mut self, key: &str, parsed: Option<Vec<Task>>)
        requires
            old(self).wf(),
        ensures
            final(self).wf(),
            forall|id: Seq<char>| #[trigger] final(self).task(id) == refreshed(old(self).task(id), old(self).file_ids(key@), opt_tasks(parsed), id),
            forall|k: Seq<char>| #[trigger] final(self).file_ids(k) == if k == key@ {
                match parsed {
                    Some(ts) => Some(ids_of(ts@)),
                    None => None,
                }
            } else {
                old(self).file_ids(k)
            },
    {
        let ghost old_self = *self;
        let ghost old_ids = old_self.file_ids(key@);
        match assoc_find(&self.by_file, key) {
            Some(i) => {
                proof {
                    lemma_find_key(self.by_file@, key@);
                }
                let (_, ids) = assoc_remove_at(&mut self.by_file, i);
                assert(old_ids == Some(views_of(ids@)));
                self.remove_ids(&ids);
            },
            None => {},
        }
        let ghost mid = *self;
        assert forall|id: Seq<char>| #[trigger] mid.task(id) == refreshed(old_self.task(id), old_ids, None, id) by {}
        assert(lookup(mid.by_file@, key@) is None);
        let ghost after_remove = self.tasks@;
        match parsed {
            Some(ts) => {
                let mut ids: Vec<String> = Vec::new();
                let mut j: usize = 0;
                while j < ts.len()
                    invariant
                        j <= ts@.len(),
                        distinct_keys(self.tasks@),
                        forall|m: int| 0 <= m < self.tasks@.len() ==> (#[trigger] self.tasks@[m]).0@ == self.tasks@[m].1.id@,
                        self.by_file == mid.by_file,
                        ids@.len() == j,
                        views_of(ids@) == ids_of(ts@.take(j as int)),
                        forall|q: Seq<char>| #[trigger] lookup(self.tasks@, q) == match last_with_id(ts@.take(j as int), q) {
                            Some(t) => Some(t),
                            None => lookup(after_remove, q),
                        },
                    decreases ts@.len() - j,
                {
                    let t = ts[j].clone();
                    let ghost before = self.tasks@;
                    let ghost prev_ids = ids@;
                    assoc_set(&mut self.tasks, t.id.clone(), t.clone());
                    let tid = t.id.clone();
                    ids.push(tid);
                    proof {
                        assert(ids@ == prev_ids.push(tid));
                        assert(prev_ids.len() == j);
                        assert(ts@.take(j + 1) =~= ts@.take(j as int).push(t));
                        assert(ts@.take(j + 1).drop_last() =~= ts@.take(j as int));
                        assert forall|m: int| 0 <= m < j + 1 implies #[trigger] views_of(ids@)[m] == ids_of(ts@.take(j + 1))[m] by {
                            if m < j {
                                assert(views_of(prev_ids)[m] == ids_of(ts@.take(j as int))[m]);
                                assert(ids@[m] == prev_ids[m]);
                            }
                        }
                        assert(views_of(ids@) =~= ids_of(ts@.take(j + 1)));
                        assert forall|m: int| 0 <= m < self.tasks@.len() implies (#[trigger] self.tasks@[m]).0@ == self.tasks@[m].1.id@ by {
                            lemma_find_key(self.tasks@, self.tasks@[m].0@);
                            lemma_find_key_exact(self.tasks@, self.tasks@[m].0@, m);
                            let q = self.tasks@[m].0@;
                            assert(lookup(self.tasks@, q) == Some(self.tasks@[m].1));
                            if q != t.id@ {
                                lemma_find_key(before, q);
                                let f = find_key(before, q);
                                assert(lookup(before, q) == Some(self.tasks@[m].1));
                                assert(before[f].1 == self.tasks@[m].1);
                            }
                        }
                    }
                    j += 1;
                }
                proof {
                    assert(ts@.take(ts@.len() as int) =~= ts@);
                }
                let ghost pre_files = self.by_file@;
                assoc_set(&mut self.by_file, String::from_str(key), ids);
                proof {
                    assert forall|id: Seq<char>| #[trigger] self.task(id) == refreshed(old_self.task(id), old_ids, Some(ts@), id) by {
                        assert(mid.task(id) == lookup(after_remove, id));
                    }
                }
            },
            None => {},
        }
    }

    proof fn lemma_entry(&self, m: int)
        requires
            self.wf(),
            0 <= m < self.tasks@.len(),
        ensures
            self.task(self.tasks@[m].1.id@) == Some(self.tasks@[m].1),
    {
        lemma_find_key(self.tasks@, self.tasks@[m].0@);
        lemma_find_key_exact(self.tasks@, self.tasks@[m].0@, m);
    }

    /// Every task, listed by file path and then by line.
    pub fn all_tasks(&self) -> (r: Vec<Task>)
        requires
            self.wf(),
        ensures
            in_place_order(r@),
            forall|a: int| 0 <= a < r@.len() ==> self.task((#[trigger] r@[a]).id@) == Some(r@[a]),
            forall|a: int, b: int| 0 <= a < b < r@.len() ==> (#[trigger] r@[a]).id@ != (#[trigger] r@[b]).id@,
            forall|id: Seq<char>| #[trigger] self.task(id) is Some ==> exists|a: int| 0 <= a < r@.len() && r@[a].id@ == id,
    {
        let mut r: Vec<Task> = Vec::new();
        let ghost mut src: Seq<int> = Seq::empty();
        let ghost mut pos: Seq<int> = Seq::empty();
        let mut i: usize = 0;
        while i < self.tasks.len()
            invariant
                i <= self.tasks@.len(),
                self.wf(),
                in_place_order(r@),
                forall|a: int, b: int| 0 <= a < b < r@.len() ==> (#[trigger] r@[a]).id@ != (#[trigger] r@[b]).id@,
                src.len() == r@.len(),
                pos.len() == i,
                forall|a: int| 0 <= a < r@.len() ==> 0 <= #[trigger] src[a] < i && r@[a] == self.tasks@[src[a]].1,
                forall|m: int| 0 <= m < i ==> 0 <= #[trigger] pos[m] < r@.len() && r@[pos[m]].id@ == self.tasks@[m].0@,
            decreases self.tasks@.len() - i,
        {
            let x = self.tasks[i].1.clone();
            let ghost old_r = r@;
            proof {
                assert(x.id@ == self.tasks@[i as int].0@);
                assert forall|a: int| 0 <= a < old_r.len() implies (#[trigger] old_r[a]).id@ != x.id@ by {
                    let m = src[a];
                    assert(self.tasks@[m].0@ == self.tasks@[m].1.id@);
                }
            }
            let p = insert_in_order(&mut r, x);
            proof {
                let res = lemma_listing_step(self.tasks@, i as int, old_r, p as int, src, pos);
                src = res.0;
                pos = res.1;
            }
            i += 1;
        }
        proof {
            assert forall|a: int| 0 <= a < r@.len() implies self.task((#[trigger] r@[a]).id@) == Some(r@[a]) by {
                self.lemma_entry(src[a]);
            }
            assert forall|id: Seq<char>| #[trigger] self.task(id) is Some implies exists|a: int| 0 <= a < r@.len() && r@[a].id@ == id by {
                lemma_find_key(self.tasks@, id);
                let f = find_key(self.tasks@, id);
                assert(self.tasks@[f].0@ == id);
                assert(r@[pos[f]].id@ == id);
            }
        }
        r
    }
}


/// The text in lower case, by the Unicode `Lowercase` mapping.
pub uninterp spec fn lowercase(s: Seq<char>) -> Seq<char>;

/// The ASCII lower case of a character: `A`..`Z` become `a`..`z`.
pub open spec fn ascii_lower(c: char) -> char {
    if 'A' <= c && c <= 'Z' {
        ((c as u32) + 32) as char
    } else {
        c
    }
}

/// Every character of `s` is ASCII.
pub open spec fn is_ascii_text(s: Seq<char>) -> bool {
    forall|i: int| 0 <= i < s.len() ==> (#[trigger] s[i]) < '\u{80}'
}

/// The text in lower case: character by character for an ASCII text,
/// else by the Unicode mapping (`lowercase`).
pub open spec fn text_lower(s: Seq<char>) -> Seq<char> {
    if is_ascii_text(s) {
        s.map_values(|c: char| ascii_lower(c))
    } else {
        lowercase(s)
    }
}

/// `str::to_lowercase`. The contract claims that the result is a function
/// of the text (`lowercase`), and that an ASCII text is lowercased
/// character by character (the Unicode mapping of ASCII letters); what it
/// does to other characters is Unicode's and left unsaid.
#[verifier::external_body]
fn to_lowercase(s: &str) -> (r: String)
    ensures
        r@ == lowercase(s@),
        is_ascii_text(s@) ==> r@ == s@.map_values(|c: char| ascii_lower(c)),
{
    s.to_lowercase()
}

/// Whether `s` ends with `suffix`.
pub open spec fn ends_with(s: Seq<char>, suffix: Seq<char>) -> bool {
    s.len() >= suffix.len() && s.skip(s.len() - suffix.len()) == suffix
}

/// `n` is a whole component of `p` starting at `a`.
pub open spec fn component_at(p: Seq<char>, a: int, n: Seq<char>) -> bool {
    &&& 0 <= a
    &&& a + n.len() <= p.len()
    &&& (a == 0 || crate::path::is_sep(p[a - 1]))
    &&& p.subrange(a, a + n.len()) == n
    &&& (a + n.len() == p.len() || crate::path::is_sep(p[a + n.len()]))
}

/// `n` is one of the components of `p`.
pub open spec fn has_component(p: Seq<char>, n: Seq<char>) -> bool {
    exists|a: int| component_at(p, a, n)
}

/// A file name that editors use for backups, swap or temporary files, or
/// the application's own settings file.
pub open spec fn ignored_name(name: Seq<char>) -> bool {
    ||| (name.len() > 0 && (name[0] == '~' || name.last() == '~'))
    ||| ends_with(name, ".swp"@)
    ||| ends_with(name, ".tmp"@)
    ||| name == ".floaty-todo.json"@
}

/// A path under one of the folders that are never scanned.
pub open spec fn under_ignored_folder(p: Seq<char>) -> bool {
    ||| has_component(p, ".obsidian"@)
    ||| has_component(p, ".git"@)
    ||| has_component(p, ".trash"@)
    ||| has_component(p, "node_modules"@)
}

pub open spec fn spec_not_ignored(p: Seq<char>) -> bool {
    let name = match spec_file_name(p) {
        Some(n) => n,
        None => Seq::empty(),
    };
    !ignored_name(name) && !under_ignored_folder(p)
}

/// The path ends in `.md` or `.markdown`, in any case, and is not ignored.
pub open spec fn spec_markdown_target(p: Seq<char>) -> bool {
    &&& spec_file_name(p) matches Some(name)
    &&& spec_extension(name) matches Some(ext)
    &&& (text_lower(ext) == "md"@ || text_lower(ext) == "markdown"@)
    &&& spec_not_ignored(p)
}

fn ends_with_chars(s: &Vec<char>, suffix: &str) -> (b: bool)
    ensures
        b == ends_with(s@, suffix@),
{
    let suf = chars_of(suffix);
    if s.len() < suf.len() {
        return false;
    }
    let off = s.len() - suf.len();
    let sl = s.len();
    let mut k: usize = 0;
    while k < suf.len()
        invariant
            k <= suf@.len(),
            suf@ == suffix@,
            sl == s@.len(),
            off + suf@.len() == sl,
            forall|m: int| 0 <= m < k ==> s@[off + m] == suf@[m],
        decreases suf@.len() - k,
    {
        if s[off + k] != suf[k] {
            proof {
                assert(s@.skip(off as int)[k as int] == s@[off + k]);
            }
            return false;
        }
        k += 1;
    }
    proof {
        assert(s@.skip(off as int) =~= suf@);
    }
    true
}

/// Whether the characters are exactly those of `t`.
pub fn equals_chars(s: &Vec<char>, t: &str) -> (b: bool)
    ensures
        b == (s@ == t@),
{
    let tc = chars_of(t);
    if s.len() != tc.len() {
        return false;
    }
    let mut k: usize = 0;
    while k < tc.len()
        invariant
            k <= tc@.len() == s@.len(),
            tc@ == t@,
            forall|m: int| 0 <= m < k ==> s@[m] == tc@[m],
        decreases tc@.len() - k,
    {
        if s[k] != tc[k] {
            return false;
        }
        k += 1;
    }
    proof {
        assert(s@ =~= tc@);
    }
    true
}

fn component_at_exec(p: &Vec<char>, a: usize, n: &Vec<char>) -> (b: bool)
    requires
        a <= p@.len(),
    ensures
        b == component_at(p@, a as int, n@),
{
    if p.len() - a < n.len() {
        return false;
    }
    if a > 0 && !(p[a - 1] == '/' || p[a - 1] == '\\') {
        return false;
    }
    let e = a + n.len();
    if e < p.len() && !(p[e] == '/' || p[e] == '\\') {
        return false;
    }
    let mut k: usize = 0;
    while k < n.len()
        invariant
            k <= n@.len(),
            e == a + n@.len(),
            e <= p@.len(),
            forall|m: int| 0 <= m < k ==> p@[a + m] == n@[m],
        decreases n@.len() - k,
    {
        if p[a + k] != n[k] {
            proof {
                assert(p@.subrange(a as int, a + n@.len())[k as int] == p@[a + k]);
            }
            return false;
        }
        k += 1;
    }
    proof {
        assert(p@.subrange(a as int, a + n@.len()) =~= n@);
    }
    true
}

/// Whether `n` is one of the components of `p`.
fn has_component_exec(p: &Vec<char>, n: &str) -> (b: bool)
    ensures
        b == has_component(p@, n@),
{
    let nc = chars_of(n);
    let mut a: usize = 0;
    while a < p.len()
        invariant
            a <= p@.len(),
            nc@ == n@,
            forall|x: int| 0 <= x < a ==> !component_at(p@, x, n@),
        decreases p@.len() - a,
    {
        if component_at_exec(p, a, &nc) {
            return true;
        }
        a += 1;
    }
    if component_at_exec(p, a, &nc) {
        return true;
    }
    proof {
        assert forall|x: int| !component_at(p@, x, n@) by {
            if 0 <= x && x <= a {
            }
        }
    }
    false
}

/// Whether the file at `path` is scanned at all: not an editor's backup,
/// swap or temporary file, not the settings file, and not inside
/// `.obsidian`, `.git`, `.trash` or `node_modules`.
pub fn is_not_ignored(path: &str) -> (b: bool)
    ensures
        b == spec_not_ignored(path@),
{
    let name: Vec<char> = match file_name(path) {
        Some(n) => chars_of(n.as_str()),
        None => Vec::new(),
    };
    let n = name.len();
    if (n > 0 && (name[0] == '~' || name[n - 1] == '~')) || ends_with_chars(&name, ".swp")
        || ends_with_chars(&name, ".tmp") {
        return false;
    }
    if equals_chars(&name, ".floaty-todo.json") {
        return false;
    }
    let p = chars_of(path);
    if has_component_exec(&p, ".obsidian") || has_component_exec(&p, ".git") || has_component_exec(&p, ".trash")
        || has_component_exec(&p, "node_modules") {
        return false;
    }
    true
}

/// Whether the file at `path` holds tasks to scan: a Markdown file (`.md`
/// or `.markdown`, in any case) that is not ignored.
pub fn is_markdown_target(path: &str) -> (b: bool)
    ensures
        b == spec_markdown_target(path@),
{
    let name = match file_name(path) {
        Some(n) => n,
        None => return false,
    };
    let ext = match extension(name.as_str()) {
        Some(e) => e,
        None => return false,
    };
    if !is_markdown_extension(to_lowercase(ext.as_str()).as_str()) {
        return false;
    }
    is_not_ignored(path)
}

/// Whether an extension, already lowercased, is one of Markdown's.
pub fn is_markdown_extension(lowered: &str) -> (b: bool)
    ensures
        b == (lowered@ == "md"@ || lowered@ == "markdown"@),
{
    let lower = chars_of(lowered);
    equals_chars(&lower, "md") || equals_chars(&lower, "markdown")
}

proof fn lemma_last_with_id(ts: Seq<Task>, id: Seq<char>)
    ensures
        ids_of(ts).contains(id) ==> last_with_id(ts, id) is Some,
        last_with_id(ts, id) matches Some(t) ==> t.id@ == id,
    decreases ts.len(),
{
    if ts.len() > 0 {
        lemma_last_with_id(ts.drop_last(), id);
        if ids_of(ts).contains(id) && ts.last().id@ != id {
            let j = choose|j: int| 0 <= j < ids_of(ts).len() && ids_of(ts)[j] == id;
            assert(j < ts.len() - 1);
            assert(ids_of(ts.drop_last())[j] == id);
        }
    }
}

/// Reading a file again with the same tasks changes nothing: the tasks and
/// the file's ids stay as the first reading left them.
pub proof fn law_refresh_idempotent(before: Option<Task>, old_ids: Option<Seq<Seq<char>>>, ts: Seq<Task>, id: Seq<char>)
    ensures
        refreshed(refreshed(before, old_ids, Some(ts), id), Some(ids_of(ts)), Some(ts), id) == refreshed(before, old_ids, Some(ts), id),
{
    lemma_last_with_id(ts, id);
}

/// Once a file is gone, none of the tasks last read from it remains.
pub proof fn law_refresh_deleted(before: Option<Task>, ts: Seq<Task>, id: Seq<char>)
    requires
        ids_of(ts).contains(id),
    ensures
        refreshed(before, Some(ids_of(ts)), None, id) is None,
{
}

/// Every task read from a file can be found by its id afterwards (the last
/// one read, when two share an id).
pub proof fn law_refresh_then_get(before: Option<Task>, old_ids: Option<Seq<Seq<char>>>, ts: Seq<Task>, i: int)
    requires
        0 <= i < ts.len(),
    ensures
        refreshed(before, old_ids, Some(ts), ts[i].id@) == last_with_id(ts, ts[i].id@),
        refreshed(before, old_ids, Some(ts), ts[i].id@) is Some,
{
    assert(ids_of(ts)[i] == ts[i].id@);
    lemma_last_with_id(ts, ts[i].id@);
}

} // verus!
