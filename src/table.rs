//! Small string-keyed tables kept as vectors of pairs, in insertion order, keys unique.
use vstd::prelude::*;
use crate::text::owned;

verus! {

/// Whether no key occurs twice in `s`.
pub open spec fn keys_unique<V>(s: Seq<(String, V)>) -> bool {
    forall|i: int, j: int| 0 <= i < j < s.len() ==> s[i].0@ != s[j].0@
}

/// Whether `k` is a key of `s`.
pub open spec fn has_key<V>(s: Seq<(String, V)>, k: Seq<char>) -> bool {
    exists|i: int| 0 <= i < s.len() && #[trigger] s[i].0@ == k
}

/// The value stored under `k`, if any.
pub open spec fn lookup<V>(s: Seq<(String, V)>, k: Seq<char>) -> Option<V> {
    if has_key(s, k) {
        Some(s[choose|i: int| 0 <= i < s.len() && #[trigger] s[i].0@ == k].1)
    } else {
        None
    }
}

/// The keys of `s`, in order.
pub open spec fn key_seq<V>(s: Seq<(String, V)>) -> Seq<Seq<char>> {
    s.map_values(|p: (String, V)| p.0@)
}

pub proof fn lemma_lookup_at<V>(s: Seq<(String, V)>, i: int)
    requires
        keys_unique(s),
        0 <= i < s.len(),
    ensures
        lookup(s, s[i].0@) == Some(s[i].1),
{
    assert(has_key(s, s[i].0@));
    let j = choose|j: int| 0 <= j < s.len() && #[trigger] s[j].0@ == s[i].0@;
    assert(j == i);
}

/// The position of `k` in `v`.
pub fn find_index<V>(v: &Vec<(String, V)>, k: &str) -> (r: Option<usize>)
    ensures
        r matches Some(i) ==> i < v@.len() && v@[i as int].0@ == k@,
        r is None <==> !has_key(v@, k@),
{
    let key = owned(k);
    let mut i: usize = 0;
    while i < v.len()
        invariant
            key@ == k@,
            0 <= i <= v@.len(),
            forall|j: int| 0 <= j < i ==> v@[j].0@ != k@,
        decreases v@.len() - i,
    {
        if v[i].0 == key {
            return Some(i);
        }
        i += 1;
    }
    None
}

/// The keys of `v`, in order.
pub fn keys_of<V>(v: &Vec<(String, V)>) -> (r: Vec<String>)
    ensures
        views_of(r@) == key_seq(v@),
{
    let mut out: Vec<String> = Vec::new();
    let mut i: usize = 0;
    while i < v.len()
        invariant
            0 <= i <= v@.len(),
            views_of(out@) == key_seq(v@).take(i as int),
        decreases v@.len() - i,
    {
        let c = v[i].0.clone();
        let ghost prev = out@;
        out.push(c);
        assert(out@ == prev.push(c));
        assert(views_of(out@) =~= views_of(prev).push(c@));
        assert(key_seq(v@).take(i + 1) =~= key_seq(v@).take(i as int).push(v@[i as int].0@));
        i += 1;
    }
    assert(key_seq(v@).take(v@.len() as int) =~= key_seq(v@));
    out
}

/// The character sequences of a sequence of strings.
pub open spec fn views_of(s: Seq<String>) -> Seq<Seq<char>> {
    s.map_values(|x: String| x@)
}

/// Stores `value` under `k`, replacing the value already there or appending a new pair.
pub fn insert<V>(v: &mut Vec<(String, V)>, k: &str, value: V)
    requires
        keys_unique(old(v)@),
    ensures
        keys_unique(final(v)@),
        lookup(final(v)@, k@) == Some(value),
        forall|x: Seq<char>| x != k@ ==> lookup(final(v)@, x) == lookup(old(v)@, x),
        forall|x: Seq<char>| has_key(final(v)@, x) <==> (has_key(old(v)@, x) || x == k@),
        key_seq(final(v)@) == if has_key(old(v)@, k@) {
            key_seq(old(v)@)
        } else {
            key_seq(old(v)@).push(k@)
        },
{
    let ghost pre = v@;
    match find_index(v, k) {
        Some(i) => {
            v.set(i, (owned(k), value));
            proof {
                assert(forall|j: int| 0 <= j < v@.len() ==> #[trigger] v@[j].0@ == pre[j].0@);
                lemma_lookup_at(v@, i as int);
                assert forall|x: Seq<char>| x != k@ implies lookup(v@, x) == lookup(pre, x) by {
                    if has_key(pre, x) {
                        let j = choose|j: int| 0 <= j < pre.len() && #[trigger] pre[j].0@ == x;
                        lemma_lookup_at(pre, j);
                        lemma_lookup_at(v@, j);
                    } else {
                        assert(!has_key(v@, x));
                    }
                }
                assert forall|x: Seq<char>| has_key(v@, x) <==> (has_key(pre, x) || x == k@) by {
                    if has_key(v@, x) {
                        let j = choose|j: int| 0 <= j < v@.len() && #[trigger] v@[j].0@ == x;
                        assert(pre[j].0@ == x);
                    }
                    if has_key(pre, x) {
                        let j = choose|j: int| 0 <= j < pre.len() && #[trigger] pre[j].0@ == x;
                        assert(v@[j].0@ == x);
                    }
                }
                assert(key_seq(v@) =~= key_seq(pre));
            }
        },
        None => {
            v.push((owned(k), value));
            proof {
                let n = pre.len() as int;
                assert(forall|j: int| 0 <= j < n ==> #[trigger] v@[j] == pre[j]);
                lemma_lookup_at(v@, n);
                assert forall|x: Seq<char>| x != k@ implies lookup(v@, x) == lookup(pre, x) by {
                    if has_key(pre, x) {
                        let j = choose|j: int| 0 <= j < pre.len() && #[trigger] pre[j].0@ == x;
                        lemma_lookup_at(pre, j);
                        lemma_lookup_at(v@, j);
                    } else {
                        assert(!has_key(v@, x));
                    }
                }
                assert forall|x: Seq<char>| has_key(v@, x) <==> (has_key(pre, x) || x == k@) by {
                    if has_key(v@, x) {
                        let j = choose|j: int| 0 <= j < v@.len() && #[trigger] v@[j].0@ == x;
                        if j < n {
                            assert(pre[j].0@ == x);
                        }
                    }
                    if has_key(pre, x) {
                        let j = choose|j: int| 0 <= j < pre.len() && #[trigger] pre[j].0@ == x;
                        assert(v@[j].0@ == x);
                    }
                }
                assert(key_seq(v@) =~= key_seq(pre).push(k@));
            }
        },
    }
}

/// Removes the pair stored under `k` and returns its value, keeping the others in order.
pub fn remove<V>(v: &mut Vec<(String, V)>, k: &str) -> (r: Option<V>)
    requires
        keys_unique(old(v)@),
    ensures
        keys_unique(final(v)@),
        r == lookup(old(v)@, k@),
        lookup(final(v)@, k@) is None,
        forall|x: Seq<char>| x != k@ ==> lookup(final(v)@, x) == lookup(old(v)@, x),
        forall|x: Seq<char>| has_key(final(v)@, x) <==> (has_key(old(v)@, x) && x != k@),
{
    let ghost pre = v@;
    match find_index(v, k) {
        Some(i) => {
            let (_, value) = v.remove(i);
            proof {
                lemma_lookup_at(pre, i as int);
                assert(forall|j: int| 0 <= j < i ==> #[trigger] v@[j] == pre[j]);
                assert(forall|j: int| i <= j < v@.len() ==> #[trigger] v@[j] == pre[j + 1]);
                assert forall|x: Seq<char>| has_key(v@, x) <==> (has_key(pre, x) && x != k@) by {
                    if has_key(v@, x) {
                        let j = choose|j: int| 0 <= j < v@.len() && #[trigger] v@[j].0@ == x;
                        if j < i {
                            assert(pre[j].0@ == x);
                        } else {
                            assert(pre[j + 1].0@ == x);
                        }
                    }
                    if has_key(pre, x) && x != k@ {
                        let j = choose|j: int| 0 <= j < pre.len() && #[trigger] pre[j].0@ == x;
                        if j < i {
                            assert(v@[j].0@ == x);
                        } else {
                            assert(j != i);
                            assert(v@[j - 1].0@ == x);
                        }
                    }
                }
                assert forall|x: Seq<char>| x != k@ implies lookup(v@, x) == lookup(pre, x) by {
                    if has_key(pre, x) {
                        let j = choose|j: int| 0 <= j < pre.len() && #[trigger] pre[j].0@ == x;
                        lemma_lookup_at(pre, j);
                        if j < i {
                            lemma_lookup_at(v@, j);
                        } else {
                            lemma_lookup_at(v@, j - 1);
                        }
                    }
                }
            }
            Some(value)
        },
        None => None,
    }
}

} // verus!
