//! Small maps keyed by text, kept as vectors of pairs; a lookup finds the
//! first pair with the key.

use vstd::prelude::*;

verus! {

/// Index of the first pair whose key is `k`, or -1.
pub open spec fn find_key<T>(v: Seq<(String, T)>, k: Seq<char>) -> int
    decreases v.len(),
{
    if v.len() == 0 {
        -1
    } else if v.last().0@ == k && find_key(v.drop_last(), k) == -1 {
        v.len() - 1
    } else {
        find_key(v.drop_last(), k)
    }
}

/// The value of the first pair whose key is `k`.
pub open spec fn lookup<T>(v: Seq<(String, T)>, k: Seq<char>) -> Option<T> {
    let i = find_key(v, k);
    if i >= 0 {
        Some(v[i].1)
    } else {
        None
    }
}

pub proof fn lemma_find_key<T>(v: Seq<(String, T)>, k: Seq<char>)
    ensures
        -1 <= find_key(v, k) < v.len(),
        find_key(v, k) >= 0 ==> v[find_key(v, k)].0@ == k,
        forall|j: int| 0 <= j < v.len() && (j < find_key(v, k) || find_key(v, k) == -1) ==> #[trigger] v[j].0@ != k,
    decreases v.len(),
{
    if v.len() > 0 {
        lemma_find_key(v.drop_last(), k);
        assert forall|j: int| 0 <= j < v.len() - 1 implies v.drop_last()[j] == #[trigger] v[j] by {}
    }
}

pub proof fn lemma_find_key_exact<T>(v: Seq<(String, T)>, k: Seq<char>, i: int)
    requires
        -1 <= i < v.len(),
        i >= 0 ==> v[i].0@ == k,
        forall|j: int| 0 <= j < v.len() && (j < i || i == -1) ==> #[trigger] v[j].0@ != k,
    ensures
        find_key(v, k) == i,
{
    lemma_find_key(v, k);
    let f = find_key(v, k);
    if f >= 0 && i >= 0 {
        if f < i {
        } else if i < f {
            assert(v[i].0@ == k);
        }
    } else if f >= 0 {
        assert(v[f].0@ == k);
    } else if i >= 0 {
        assert(v[i].0@ == k);
    }
}

/// Position of the first pair with key `k`.
pub fn assoc_find<T>(v: &Vec<(String, T)>, k: &str) -> (r: Option<usize>)
    ensures
        match r {
            Some(i) => i as int == find_key(v@, k@) && i < v@.len(),
            None => find_key(v@, k@) == -1,
        },
{
    let key = String::from_str(k);
    let mut i: usize = 0;
    while i < v.len()
        invariant
            i <= v@.len(),
            key@ == k@,
            forall|j: int| 0 <= j < i ==> #[trigger] v@[j].0@ != k@,
        decreases v@.len() - i,
    {
        if v[i].0 == key {
            proof {
                lemma_find_key_exact(v@, k@, i as int);
            }
            return Some(i);
        }
        i += 1;
    }
    proof {
        lemma_find_key_exact(v@, k@, -1);
    }
    None
}

/// Set the value of key `k`: the first pair with that key gets it, or a pair is added.
pub fn assoc_set<T>(v: &mut Vec<(String, T)>, k: String, val: T)
    ensures
        distinct_keys(old(v)@) ==> distinct_keys(final(v)@),
        forall|q: Seq<char>| #[trigger] lookup(final(v)@, q) == if q == k@ { Some(val) } else { lookup(old(v)@, q) },
{
    let ghost old_v = v@;
    match assoc_find(v, k.as_str()) {
        Some(i) => {
            let ghost kk = v@[i as int].0;
            proof {
                lemma_find_key(old_v, k@);
            }
            v.set(i, (k, val));
            proof {
                assert forall|q: Seq<char>| #[trigger] lookup(v@, q) == if q == k@ { Some(val) } else { lookup(old_v, q) } by {
                    lemma_find_key(old_v, q);
                    let f = find_key(old_v, q);
                    assert forall|j: int| 0 <= j < v@.len() implies #[trigger] v@[j].0@ == old_v[j].0@ by {
                        if j == i { assert(kk@ == k@); }
                    }
                    if q == k@ {
                        lemma_find_key_exact(v@, q, i as int);
                    } else {
                        lemma_find_key_exact(v@, q, f);
                    }
                }
                if distinct_keys(old_v) {
                    assert forall|a: int, b: int| 0 <= a < b < v@.len() implies (#[trigger] v@[a]).0@ != (#[trigger] v@[b]).0@ by {
                        assert(old_v[a].0@ != old_v[b].0@);
                        if a == i { assert(kk@ == k@); }
                        if b == i { assert(kk@ == k@); }
                    }
                }
            }
        },
        None => {
            let ghost kv = k@;
            v.push((k, val));
            proof {
                assert forall|q: Seq<char>| #[trigger] lookup(v@, q) == if q == kv { Some(val) } else { lookup(old_v, q) } by {
                    lemma_find_key(old_v, q);
                    let f = find_key(old_v, q);
                    if q == kv {
                        lemma_find_key_exact(v@, q, old_v.len() as int);
                    } else {
                        if f >= 0 {
                            assert(v@[f] == old_v[f]);
                        }
                        assert(v@[old_v.len() as int].0@ == kv);
                        lemma_find_key_exact(v@, q, f);
                    }
                }
                lemma_find_key(old_v, kv);
                if distinct_keys(old_v) {
                    assert forall|a: int, b: int| 0 <= a < b < v@.len() implies (#[trigger] v@[a]).0@ != (#[trigger] v@[b]).0@ by {
                        if b == old_v.len() {
                            assert(v@[a] == old_v[a]);
                        } else {
                            assert(v@[a] == old_v[a]);
                            assert(v@[b] == old_v[b]);
                        }
                    }
                }
            }
        },
    }
}


/// No key appears twice.
pub open spec fn distinct_keys<T>(v: Seq<(String, T)>) -> bool {
    forall|i: int, j: int| 0 <= i < j < v.len() ==> (#[trigger] v[i]).0@ != (#[trigger] v[j]).0@
}

pub proof fn lemma_lookup_push<T>(v: Seq<(String, T)>, x: (String, T), k: Seq<char>)
    ensures
        lookup(v.push(x), k) == if lookup(v, k) is None && x.0@ == k { Some(x.1) } else { lookup(v, k) },
{
    assert(v.push(x).drop_last() =~= v);
    lemma_find_key(v, k);
    if find_key(v, k) >= 0 {
        assert(v.push(x)[find_key(v, k)] == v[find_key(v, k)]);
    }
}

pub proof fn lemma_lookup_none<T>(v: Seq<(String, T)>, k: Seq<char>)
    requires
        forall|j: int| 0 <= j < v.len() ==> #[trigger] v[j].0@ != k,
    ensures
        lookup(v, k) is None,
{
    lemma_find_key_exact(v, k, -1);
}

/// Keep the pairs whose value is not in `drop`; keys stay distinct.
pub fn assoc_retain_values(v: &mut Vec<(String, String)>, drop: &Vec<String>)
    requires
        distinct_keys(old(v)@),
    ensures
        distinct_keys(final(v)@),
        forall|k: Seq<char>| #[trigger] lookup(final(v)@, k) == match lookup(old(v)@, k) {
            Some(val) => if views_of(drop@).contains(val@) { None } else { Some(val) },
            None => None,
        },
{
    let ghost old_v = v@;
    let mut out: Vec<(String, String)> = Vec::new();
    let mut i: usize = 0;
    while i < v.len()
        invariant
            i <= old_v.len(),
            v@ == old_v,
            distinct_keys(old_v),
            forall|j: int| 0 <= j < out@.len() ==> exists|m: int| 0 <= m < i && (#[trigger] out@[j]).0@ == old_v[m].0@,
            distinct_keys(out@),
            forall|k: Seq<char>| #[trigger] lookup(out@, k) == match lookup(old_v.take(i as int), k) {
                Some(val) => if views_of(drop@).contains(val@) { None } else { Some(val) },
                None => None,
            },
        decreases old_v.len() - i,
    {
        let ghost prev = out@;
        let ghost x = old_v[i as int];
        proof {
            assert(old_v.take(i + 1) =~= old_v.take(i as int).push(x));
            // the key of x is new among the first i pairs
            assert forall|m: int| 0 <= m < i implies #[trigger] old_v.take(i as int)[m].0@ != x.0@ by {
                assert(old_v.take(i as int)[m] == old_v[m]);
            }
            lemma_lookup_none(old_v.take(i as int), x.0@);
        }
        let keep = !contains_string(drop, &v[i].1);
        if keep {
            let pair = (v[i].0.clone(), v[i].1.clone());
            out.push(pair);
            proof {
                assert forall|k: Seq<char>| #[trigger] lookup(out@, k) == match lookup(old_v.take(i + 1), k) {
                    Some(val) => if views_of(drop@).contains(val@) { None } else { Some(val) },
                    None => None,
                } by {
                    lemma_lookup_push(prev, pair, k);
                    lemma_lookup_push(old_v.take(i as int), x, k);
                    if k == x.0@ {
                        assert forall|j: int| 0 <= j < prev.len() implies #[trigger] prev[j].0@ != k by {
                            let m = choose|m: int| 0 <= m < i && prev[j].0@ == old_v[m].0@;
                        }
                        lemma_lookup_none(prev, k);
                    }
                }
                assert forall|a: int, b: int| 0 <= a < b < out@.len() implies (#[trigger] out@[a]).0@ != (#[trigger] out@[b]).0@ by {
                    if b == out@.len() - 1 {
                        let m = choose|m: int| 0 <= m < i && prev[a].0@ == old_v[m].0@;
                    } else {
                        assert(out@[a] == prev[a]);
                        assert(out@[b] == prev[b]);
                    }
                }
                assert forall|j: int| 0 <= j < out@.len() implies exists|m: int| 0 <= m < i + 1 && (#[trigger] out@[j]).0@ == old_v[m].0@ by {
                    if j < prev.len() {
                        assert(out@[j] == prev[j]);
                        let m = choose|m: int| 0 <= m < i && prev[j].0@ == old_v[m].0@;
                        assert(0 <= m < i + 1 && out@[j].0@ == old_v[m].0@);
                    } else {
                        assert(out@[j].0@ == old_v[i as int].0@);
                    }
                }
            }
        } else {
            proof {
                assert forall|k: Seq<char>| #[trigger] lookup(out@, k) == match lookup(old_v.take(i + 1), k) {
                    Some(val) => if views_of(drop@).contains(val@) { None } else { Some(val) },
                    None => None,
                } by {
                    lemma_lookup_push(old_v.take(i as int), x, k);
                }
            }
        }
        i += 1;
    }
    proof {
        assert(old_v.take(old_v.len() as int) =~= old_v);
    }
    *v = out;
}

/// The texts of a vector of strings.
pub open spec fn views_of(v: Seq<String>) -> Seq<Seq<char>> {
    Seq::new(v.len(), |i: int| v[i]@)
}

/// Whether `v` holds a string equal to `s`.
pub fn contains_string(v: &Vec<String>, s: &String) -> (b: bool)
    ensures
        b == views_of(v@).contains(s@),
{
    let mut i: usize = 0;
    while i < v.len()
        invariant
            i <= v@.len(),
            forall|j: int| 0 <= j < i ==> #[trigger] v@[j]@ != s@,
        decreases v@.len() - i,
    {
        if v[i] == *s {
            assert(views_of(v@)[i as int] == s@);
            return true;
        }
        i += 1;
    }
    proof {
        if views_of(v@).contains(s@) {
            let j = choose|j: int| 0 <= j < views_of(v@).len() && views_of(v@)[j] == s@;
            assert(v@[j]@ == s@);
        }
    }
    false
}


/// Remove the pair at `i` of a vector whose keys are distinct: its key then
/// has no value, and every other key keeps its own.
pub fn assoc_remove_at<T>(v: &mut Vec<(String, T)>, i: usize) -> (out: (String, T))
    requires
        distinct_keys(old(v)@),
        i < old(v)@.len(),
    ensures
        out == old(v)@[i as int],
        distinct_keys(final(v)@),
        forall|q: Seq<char>| #[trigger] lookup(final(v)@, q) == if q == old(v)@[i as int].0@ { None } else { lookup(old(v)@, q) },
{
    let ghost old_v = v@;
    let ghost k = v@[i as int].0@;
    let out = v.remove(i);
    proof {
        let nv = v@;
        assert(nv =~= old_v.remove(i as int));
        assert forall|a: int, b: int| 0 <= a < b < nv.len() implies (#[trigger] nv[a]).0@ != (#[trigger] nv[b]).0@ by {
            let oa = if a < i { a } else { a + 1 };
            let ob = if b < i { b } else { b + 1 };
            assert(nv[a] == old_v[oa]);
            assert(nv[b] == old_v[ob]);
        }
        assert forall|q: Seq<char>| #[trigger] lookup(nv, q) == if q == k { None } else { lookup(old_v, q) } by {
            if q == k {
                assert forall|j: int| 0 <= j < nv.len() implies #[trigger] nv[j].0@ != q by {
                    let oj = if j < i { j } else { j + 1 };
                    assert(nv[j] == old_v[oj]);
                }
                lemma_lookup_none(nv, q);
            } else {
                lemma_find_key(old_v, q);
                let f = find_key(old_v, q);
                if f == -1 {
                    assert forall|j: int| 0 <= j < nv.len() implies #[trigger] nv[j].0@ != q by {
                        let oj = if j < i { j } else { j + 1 };
                        assert(nv[j] == old_v[oj]);
                    }
                    lemma_lookup_none(nv, q);
                } else {
                    assert(f != i);
                    let nf = if f < i { f } else { f - 1 };
                    assert(nv[nf] == old_v[f]);
                    assert forall|j: int| 0 <= j < nv.len() && j < nf implies #[trigger] nv[j].0@ != q by {
                        let oj = if j < i { j } else { j + 1 };
                        assert(nv[j] == old_v[oj]);
                    }
                    lemma_find_key_exact(nv, q, nf);
                }
            }
        }
    }
    out
}

} // verus!
