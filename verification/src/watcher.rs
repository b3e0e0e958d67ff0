//! Deciding what a file-system notification means. The application
//! registers the hash of every file it writes; the watcher drops a change
//! whose new content has such a hash (once), so the application's own
//! writes do not come back as outside edits.

use vstd::prelude::*;
use crate::registry::{equals_chars, is_markdown_target, spec_markdown_target};
use crate::types::ContentHash;

verus! {

/// What the watcher reports about a file.
#[derive(Debug, Clone, PartialEq, Eq)]
pub enum WatchEvent {
    Changed(String),
    Deleted(String),
}

/// The content hashes of writes whose notifications are still to be dropped.
pub struct IgnoreHashes {
    /// Distinct hashes.
    hashes: Vec<ContentHash>,
}

impl View for IgnoreHashes {
    type V = Set<Seq<u8>>;

    closed spec fn view(&self) -> Set<Seq<u8>> {
        Set::new(|x: Seq<u8>| exists|i: int| 0 <= i < self.hashes@.len() && (#[trigger] self.hashes@[i])@ == x)
    }
}

fn same_hash(a: &ContentHash, b: &ContentHash) -> (r: bool)
    ensures
        r == (a@ == b@),
{
    let mut k: usize = 0;
    while k < 32
        invariant
            k <= 32,
            a@.len() == 32 && b@.len() == 32,
            forall|m: int| 0 <= m < k ==> a@[m] == b@[m],
        decreases 32 - k,
    {
        if a[k] != b[k] {
            return false;
        }
        k += 1;
    }
    proof {
        assert(a@ =~= b@);
    }
    true
}

impl IgnoreHashes {
    /// No hash is held twice.
    pub closed spec fn wf(&self) -> bool {
        forall|i: int, j: int| 0 <= i < j < self.hashes@.len() ==> (#[trigger] self.hashes@[i])@ != (#[trigger] self.hashes@[j])@
    }

    fn find(&self, h: &ContentHash) -> (r: Option<usize>)
        ensures
            match r {
                Some(i) => i < self.hashes@.len() && self.hashes@[i as int]@ == h@,
                None => !self@.contains(h@),
            },
    {
        let mut i: usize = 0;
        while i < self.hashes.len()
            invariant
                i <= self.hashes@.len(),
                forall|m: int| 0 <= m < i ==> (#[trigger] self.hashes@[m])@ != h@,
            decreases self.hashes@.len() - i,
        {
            if same_hash(&self.hashes[i], h) {
                return Some(i);
            }
            i += 1;
        }
        None
    }

    /// An empty set.
    pub fn new() -> (r: IgnoreHashes)
        ensures
            r.wf(),
            r@ == Set::<Seq<u8>>::empty(),
    {
        let r = IgnoreHashes { hashes: Vec::new() };
        assert(r@ =~= Set::<Seq<u8>>::empty());
        r
    }

    /// Remember a hash whose notification is to be dropped.
    pub fn register(&mut self, h: ContentHash)
        requires
            old(self).wf(),
        ensures
            final(self).wf(),
            final(self)@ == old(self)@.insert(h@),
    {
        let ghost before = *self;
        match self.find(&h) {
            Some(_) => {
                assert(self@ =~= before@.insert(h@));
            },
            None => {
                self.hashes.push(h);
                proof {
                    assert forall|x: Seq<u8>| self@.contains(x) == before@.insert(h@).contains(x) by {
                        if before@.contains(x) {
                            let i = choose|i: int| 0 <= i < before.hashes@.len() && (#[trigger] before.hashes@[i])@ == x;
                            assert(self.hashes@[i] == before.hashes@[i]);
                        }
                        if x == h@ {
                            assert(self.hashes@[before.hashes@.len() as int] == h);
                        }
                        if self@.contains(x) {
                            let i = choose|i: int| 0 <= i < self.hashes@.len() && (#[trigger] self.hashes@[i])@ == x;
                            if i < before.hashes@.len() {
                                assert(self.hashes@[i] == before.hashes@[i]);
                            }
                        }
                    }
                    assert(self@ =~= before@.insert(h@));
                    assert forall|i: int, j: int| 0 <= i < j < self.hashes@.len() implies (#[trigger] self.hashes@[i])@ != (#[trigger] self.hashes@[j])@ by {
                        if j == before.hashes@.len() {
                            assert(self.hashes@[i] == before.hashes@[i]);
                            assert(before@.contains(before.hashes@[i]@));
                        } else {
                            assert(self.hashes@[i] == before.hashes@[i]);
                            assert(self.hashes@[j] == before.hashes@[j]);
                        }
                    }
                }
            },
        }
    }

    /// Whether `h` was registered; it is forgotten either way, so only the
    /// first notification with that content is dropped.
    pub fn check_and_remove(&mut self, h: &ContentHash) -> (r: bool)
        requires
            old(self).wf(),
        ensures
            final(self).wf(),
            r == old(self)@.contains(h@),
            final(self)@ == old(self)@.remove(h@),
    {
        let ghost before = *self;
        match self.find(h) {
            Some(i) => {
                self.hashes.remove(i);
                proof {
                    let ov = before.hashes@;
                    let nv = self.hashes@;
                    assert(nv =~= ov.remove(i as int));
                    assert(before@.contains(h@)) by {
                        assert(ov[i as int]@ == h@);
                    }
                    assert forall|x: Seq<u8>| self@.contains(x) == before@.remove(h@).contains(x) by {
                        if self@.contains(x) {
                            let j = choose|j: int| 0 <= j < nv.len() && (#[trigger] nv[j])@ == x;
                            let oj = if j < i { j } else { j + 1 };
                            assert(nv[j] == ov[oj]);
                            assert(before@.contains(x));
                            if x == h@ {
                                assert(ov[oj]@ == ov[i as int]@);
                            }
                        }
                        if before@.contains(x) && x != h@ {
                            let j = choose|j: int| 0 <= j < ov.len() && (#[trigger] ov[j])@ == x;
                            assert(j != i);
                            let nj = if j < i { j } else { j - 1 };
                            assert(nv[nj] == ov[j]);
                        }
                    }
                    assert(self@ =~= before@.remove(h@));
                    assert forall|a: int, b: int| 0 <= a < b < nv.len() implies (#[trigger] nv[a])@ != (#[trigger] nv[b])@ by {
                        let oa = if a < i { a } else { a + 1 };
                        let ob = if b < i { b } else { b + 1 };
                        assert(nv[a] == ov[oa]);
                        assert(nv[b] == ov[ob]);
                    }
                }
                true
            },
            None => {
                assert(self@ =~= before@.remove(h@));
                false
            },
        }
    }
}

/// Whether a notification about `path` concerns the watched source: a
/// Markdown target and, for a file source, the file itself (`target` is
/// that file's key, `key` the key of `path`).
pub open spec fn spec_concerns(path: Seq<char>, target: Option<Seq<char>>, key: Seq<char>) -> bool {
    spec_markdown_target(path) && match target {
        Some(t) => key == t,
        None => true,
    }
}

/// See `spec_concerns`.
pub fn concerns(path: &str, target: Option<&str>, key: &str) -> (b: bool)
    ensures
        b == spec_concerns(path@, match target {
            Some(t) => Some(t@),
            None => None,
        }, key@),
{
    if !is_markdown_target(path) {
        return false;
    }
    match target {
        Some(t) => equals_chars(&crate::text::chars_of(key), t),
        None => true,
    }
}

/// What to report for a notification about a file that concerns the
/// source: `Deleted` when it no longer exists; nothing when it could not be
/// read (`content_hash` is `None`) or when its content is the echo of a
/// registered write (which is then forgotten); `Changed` otherwise.
pub fn event_for(path: String, exists: bool, content_hash: Option<ContentHash>, ignore: &mut IgnoreHashes) -> (ev: Option<WatchEvent>)
    requires
        old(ignore).wf(),
    ensures
        final(ignore).wf(),
        !exists ==> ev == Some(WatchEvent::Deleted(path)) && final(ignore)@ == old(ignore)@,
        exists && content_hash is None ==> ev is None && final(ignore)@ == old(ignore)@,
        exists ==> (content_hash matches Some(h) ==> {
            &&& final(ignore)@ == old(ignore)@.remove(h@)
            &&& ev == if old(ignore)@.contains(h@) { None } else { Some(WatchEvent::Changed(path)) }
        }),
{
    if !exists {
        return Some(WatchEvent::Deleted(path));
    }
    match content_hash {
        None => None,
        Some(h) => {
            if ignore.check_and_remove(&h) {
                None
            } else {
                Some(WatchEvent::Changed(path))
            }
        },
    }
}

/// A write registered before its notification arrives is dropped exactly
/// once: the first check finds it, the next one does not.
pub proof fn law_register_then_consume(s: Set<Seq<u8>>, h: Seq<u8>)
    ensures
        s.insert(h).contains(h),
        s.insert(h).remove(h) == s.remove(h),
        !s.insert(h).remove(h).contains(h),
{
    assert(s.insert(h).remove(h) =~= s.remove(h));
}

} // verus!
