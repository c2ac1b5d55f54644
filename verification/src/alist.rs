//! Association lists keyed by strings: the model of every registry table.
//! Lookup is by first match; the tables keep their keys unique.
use vstd::prelude::*;

use crate::strutil::str_eq;

verus! {

/// Index of the first entry whose key reads `k`, or -1.
pub open spec fn al_find<V>(s: Seq<(String, V)>, k: Seq<char>) -> int
    decreases s.len(),
{
    if s.len() == 0 {
        -1
    } else if s[0].0@ == k {
        0
    } else if al_find(s.skip(1), k) == -1 {
        -1
    } else {
        al_find(s.skip(1), k) + 1
    }
}

/// Whether some entry has key `k`.
pub open spec fn al_has_key<V>(s: Seq<(String, V)>, k: Seq<char>) -> bool {
    exists|i: int| 0 <= i < s.len() && s[i].0@ == k
}

/// The value stored under `k`, if any.
pub open spec fn al_get<V>(s: Seq<(String, V)>, k: Seq<char>) -> Option<V> {
    if al_find(s, k) == -1 {
        None
    } else {
        Some(s[al_find(s, k)].1)
    }
}

/// No two entries share a key.
pub open spec fn al_unique<V>(s: Seq<(String, V)>) -> bool {
    forall|i: int, j: int| 0 <= i < j < s.len() ==> s[i].0@ != s[j].0@
}

/// `al_find` returns -1 exactly when no key matches, and otherwise the
/// first matching index.
pub proof fn lemma_al_find<V>(s: Seq<(String, V)>, k: Seq<char>)
    ensures
        al_find(s, k) == -1 ==> forall|i: int| 0 <= i < s.len() ==> s[i].0@ != k,
        al_find(s, k) != -1 ==> 0 <= al_find(s, k) < s.len() && s[al_find(s, k)].0@ == k,
        al_find(s, k) != -1 ==> forall|j: int| 0 <= j < al_find(s, k) ==> s[j].0@ != k,
    decreases s.len(),
{
    if s.len() > 0 {
        lemma_al_find(s.skip(1), k);
        let rest = s.skip(1);
        assert(forall|i: int| 0 <= i < rest.len() ==> rest[i] == s[i + 1]);
        if s[0].0@ != k {
            let fr = al_find(rest, k);
            if fr == -1 {
                assert forall|i: int| 0 <= i < s.len() implies s[i].0@ != k by {
                    if i > 0 {
                        assert(rest[i - 1].0@ != k);
                    }
                }
            } else {
                assert(s[fr + 1] == rest[fr]);
                assert forall|j: int| 0 <= j < fr + 1 implies s[j].0@ != k by {
                    if j > 0 {
                        assert(rest[j - 1].0@ != k);
                    }
                }
            }
        }
    }
}

/// `al_has_key` and `al_find` agree.
pub proof fn lemma_al_has_key<V>(s: Seq<(String, V)>, k: Seq<char>)
    ensures
        al_has_key(s, k) <==> al_find(s, k) != -1,
{
    lemma_al_find(s, k);
    if al_find(s, k) != -1 {
        assert(s[al_find(s, k)].0@ == k);
    }
}

/// First index whose key reads `k`, as executable code.
pub fn al_find_exec<V>(v: &Vec<(String, V)>, k: &str) -> (r: Option<usize>)
    ensures
        match r {
            Some(i) => i == al_find(v@, k@) && i < v@.len() && v@[i as int].0@ == k@,
            None => al_find(v@, k@) == -1 && !al_has_key(v@, k@),
        },
{
    proof {
        lemma_al_find(v@, k@);
        lemma_al_has_key(v@, k@);
    }
    let n = v.len();
    for i in 0..n
        invariant
            n == v@.len(),
            forall|j: int| 0 <= j < i ==> v@[j].0@ != k@,
    {
        if str_eq(v[i].0.as_str(), k) {
            proof {
                lemma_al_find(v@, k@);
            }
            return Some(i);
        }
    }
    proof {
        lemma_al_find(v@, k@);
        lemma_al_has_key(v@, k@);
    }
    None
}

/// Whether the table has an entry under `k`.
pub fn al_contains_key<V>(v: &Vec<(String, V)>, k: &str) -> (r: bool)
    ensures
        r == al_has_key(v@, k@),
{
    al_find_exec(v, k).is_some()
}

/// Borrow the value stored under `k`, if any.
pub fn al_get_ref<'a, V>(v: &'a Vec<(String, V)>, k: &str) -> (r: Option<&'a V>)
    ensures
        match r {
            Some(x) => al_get(v@, k@) == Some(*x),
            None => al_get(v@, k@) is None,
        },
{
    match al_find_exec(v, k) {
        Some(i) => Some(&v[i].1),
        None => None,
    }
}

/// Insert or overwrite: the model of a map `insert`.
pub open spec fn al_put<V>(s: Seq<(String, V)>, k: String, val: V) -> Seq<(String, V)> {
    if al_find(s, k@) == -1 {
        s.push((k, val))
    } else {
        s.update(al_find(s, k@), (k, val))
    }
}

/// Insert or overwrite the entry under `k`.
pub fn al_put_exec<V>(v: &mut Vec<(String, V)>, k: String, val: V)
    ensures
        final(v)@ == al_put(old(v)@, k, val),
{
    let r = al_find_exec(v, k.as_str());
    match r {
        Some(i) => {
            v.set(i, (k, val));
        },
        None => {
            v.push((k, val));
        },
    }
}

/// `al_put` preserves key uniqueness.
pub proof fn lemma_al_put_unique<V>(s: Seq<(String, V)>, k: String, val: V)
    requires
        al_unique(s),
    ensures
        al_unique(al_put(s, k, val)),
        al_has_key(al_put(s, k, val), k@),
    decreases s.len(),
{
    lemma_al_find(s, k@);
    let t = al_put(s, k, val);
    if al_find(s, k@) == -1 {
        assert forall|i: int, j: int| 0 <= i < j < t.len() implies t[i].0@ != t[j].0@ by {
            if j == s.len() {
                assert(s[i].0@ != k@);
            }
        }
        assert(t[s.len() as int].0@ == k@);
    } else {
        let f = al_find(s, k@);
        assert forall|i: int, j: int| 0 <= i < j < t.len() implies t[i].0@ != t[j].0@ by {
            assert(s[f].0@ == k@);
            if i == f {
                assert(t[j].0@ == s[j].0@);
            } else if j == f {
                assert(t[i].0@ == s[i].0@);
            }
        }
        assert(t[f].0@ == k@);
    }
}

/// After `al_put`, the stored value under `k` is `val` and every other key
/// keeps its value.
pub proof fn lemma_al_put_get<V>(s: Seq<(String, V)>, k: String, val: V)
    requires
        al_unique(s),
    ensures
        al_get(al_put(s, k, val), k@) == Some(val),
        forall|k2: Seq<char>| k2 != k@ ==> al_get(al_put(s, k, val), k2) == al_get(s, k2),
    decreases s.len(),
{
    let t = al_put(s, k, val);
    lemma_al_find(s, k@);
    lemma_al_put_unique(s, k, val);
    assert forall|k2: Seq<char>| true implies (k2 == k@ ==> al_get(t, k2) == Some(val)) && (k2
        != k@ ==> al_get(t, k2) == al_get(s, k2)) by {
        lemma_al_find(t, k2);
        lemma_al_find(s, k2);
        let ft = al_find(t, k2);
        let fs = al_find(s, k2);
        if k2 == k@ {
            let f = if al_find(s, k@) == -1 {
                s.len() as int
            } else {
                al_find(s, k@)
            };
            assert(t[f].0@ == k2);
            assert(ft != -1);
            assert(t[ft].0@ == k2);
            assert forall|i: int, j: int|
                0 <= i < t.len() && 0 <= j < t.len() && t[i].0@ == k2 && t[j].0@
                    == k2 implies i == j by {
                if i < j {
                    assert(t[i].0@ != t[j].0@);
                } else if j < i {
                    assert(t[j].0@ != t[i].0@);
                }
            }
            assert(ft == f);
        } else {
            if fs == -1 {
                if ft != -1 {
                    assert(t[ft].0@ == k2);
                    if al_find(s, k@) == -1 {
                        if ft < s.len() {
                            assert(s[ft].0@ == k2);
                        }
                    } else {
                        if ft != al_find(s, k@) {
                            assert(s[ft].0@ == k2);
                        }
                    }
                    assert(false);
                }
            } else {
                assert(s[fs].0@ == k2);
                assert(t[fs].0@ == k2);
                assert(ft != -1);
                assert(t[ft].0@ == k2);
                assert forall|i: int, j: int|
                    0 <= i < t.len() && 0 <= j < t.len() && t[i].0@ == k2 && t[j].0@
                        == k2 implies i == j by {
                    if i < j {
                        assert(t[i].0@ != t[j].0@);
                    } else if j < i {
                        assert(t[j].0@ != t[i].0@);
                    }
                }
                assert(ft == fs);
                assert(t[ft].1 == s[fs].1);
            }
        }
    }
}

/// The table was upserted under `k` with exactly the value `v`; every
/// other entry is untouched.
pub open spec fn al_upserted<V>(
    old_t: Seq<(String, V)>,
    new_t: Seq<(String, V)>,
    k: Seq<char>,
    v: V,
) -> bool {
    if al_find(old_t, k) == -1 {
        new_t.len() == old_t.len() + 1 && new_t.take(old_t.len() as int) == old_t
            && new_t.last().0@ == k && new_t.last().1 == v
    } else {
        let f = al_find(old_t, k);
        new_t.len() == old_t.len() && new_t[f].0@ == k && new_t[f].1 == v && forall|j: int|
            0 <= j < old_t.len() && j != f ==> new_t[j] == old_t[j]
    }
}

/// `al_put` satisfies the upsert description.
pub proof fn lemma_al_put_is_upserted<V>(s: Seq<(String, V)>, k: String, v: V)
    ensures
        al_upserted(s, al_put(s, k, v), k@, v),
{
    lemma_al_find(s, k@);
    if al_find(s, k@) == -1 {
        assert(al_put(s, k, v).take(s.len() as int) =~= s);
    }
}

/// Index of the first entry under numeric key `k`, or -1; for the
/// replica-id-to-address maps of a broker.
pub open spec fn il_find<V>(s: Seq<(u64, V)>, k: u64) -> int
    decreases s.len(),
{
    if s.len() == 0 {
        -1
    } else if s[0].0 == k {
        0
    } else if il_find(s.skip(1), k) == -1 {
        -1
    } else {
        il_find(s.skip(1), k) + 1
    }
}

/// Whether some entry has numeric key `k`.
pub open spec fn il_has_key<V>(s: Seq<(u64, V)>, k: u64) -> bool {
    exists|i: int| 0 <= i < s.len() && s[i].0 == k
}

/// The value stored under numeric key `k`, if any.
pub open spec fn il_get<V>(s: Seq<(u64, V)>, k: u64) -> Option<V> {
    if il_find(s, k) == -1 {
        None
    } else {
        Some(s[il_find(s, k)].1)
    }
}

/// No two entries share a numeric key.
pub open spec fn il_unique<V>(s: Seq<(u64, V)>) -> bool {
    forall|i: int, j: int| 0 <= i < j < s.len() ==> s[i].0 != s[j].0
}

/// Characterization of `il_find`, as for `al_find`.
pub proof fn lemma_il_find<V>(s: Seq<(u64, V)>, k: u64)
    ensures
        il_find(s, k) == -1 ==> forall|i: int| 0 <= i < s.len() ==> s[i].0 != k,
        il_find(s, k) != -1 ==> 0 <= il_find(s, k) < s.len() && s[il_find(s, k)].0 == k,
        il_find(s, k) != -1 ==> forall|j: int| 0 <= j < il_find(s, k) ==> s[j].0 != k,
        il_has_key(s, k) <==> il_find(s, k) != -1,
    decreases s.len(),
{
    if s.len() > 0 {
        lemma_il_find(s.skip(1), k);
        let rest = s.skip(1);
        assert(forall|i: int| 0 <= i < rest.len() ==> rest[i] == s[i + 1]);
        if s[0].0 != k {
            let fr = il_find(rest, k);
            if fr == -1 {
                assert forall|i: int| 0 <= i < s.len() implies s[i].0 != k by {
                    if i > 0 {
                        assert(rest[i - 1].0 != k);
                    }
                }
            } else {
                assert(s[fr + 1] == rest[fr]);
                assert forall|j: int| 0 <= j < fr + 1 implies s[j].0 != k by {
                    if j > 0 {
                        assert(rest[j - 1].0 != k);
                    }
                }
            }
        }
    }
    if il_find(s, k) != -1 {
        assert(s[il_find(s, k)].0 == k);
    }
}

/// Borrow the value stored under numeric key `k`, if any.
pub fn il_get_ref<'a, V>(v: &'a Vec<(u64, V)>, k: u64) -> (r: Option<&'a V>)
    ensures
        match r {
            Some(x) => il_get(v@, k) == Some(*x),
            None => il_get(v@, k) is None,
        },
{
    proof {
        lemma_il_find(v@, k);
    }
    let n = v.len();
    for i in 0..n
        invariant
            n == v@.len(),
            forall|j: int| 0 <= j < i ==> v@[j].0 != k,
    {
        if v[i].0 == k {
            proof {
                lemma_il_find(v@, k);
            }
            return Some(&v[i].1);
        }
    }
    proof {
        lemma_il_find(v@, k);
    }
    None
}

} // verus!
