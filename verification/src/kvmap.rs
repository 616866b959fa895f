//! Sorted association vectors and sorted string sets.
//!
//! The model keeps every mapping as a vector of key/value pairs sorted by
//! key, and every set of names as a sorted vector, so that iteration order is
//! deterministic: lexicographic by key.

use vstd::prelude::*;

use crate::strutil::lex_lt;

verus! {

/// Keys strictly ascending in lexicographic order (so also unique).
pub open spec fn kv_sorted<V>(s: Seq<(Seq<char>, V)>) -> bool {
    forall|i: int, j: int| 0 <= i < j < s.len() ==> lex_lt(s[i].0, s[j].0)
}

/// Whether `s` holds an entry under `k`.
pub open spec fn kv_has_key<V>(s: Seq<(Seq<char>, V)>, k: Seq<char>) -> bool {
    exists|i: int| 0 <= i < s.len() && s[i].0 == k
}

/// Whether `s` holds the pair `p`.
pub open spec fn kv_has_pair<V>(s: Seq<(Seq<char>, V)>, p: (Seq<char>, V)) -> bool {
    exists|i: int| 0 <= i < s.len() && s[i] == p
}

/// Inserting `(k, v)`: placed before the first greater key, replacing an
/// equal key.
pub open spec fn kv_insert<V>(s: Seq<(Seq<char>, V)>, k: Seq<char>, v: V) -> Seq<(Seq<char>, V)>
    decreases s.len(),
{
    if s.len() == 0 {
        seq![(k, v)]
    } else if lex_lt(k, s[0].0) {
        seq![(k, v)] + s
    } else if k == s[0].0 {
        seq![(k, v)] + s.skip(1)
    } else {
        seq![s[0]] + kv_insert(s.skip(1), k, v)
    }
}

/// Inserting every pair of `ps` in order, a later pair overriding an
/// earlier equal key.
pub open spec fn kv_insert_all<V>(
    s: Seq<(Seq<char>, V)>,
    ps: Seq<(Seq<char>, V)>,
) -> Seq<(Seq<char>, V)>
    decreases ps.len(),
{
    if ps.len() == 0 {
        s
    } else {
        kv_insert_all(kv_insert(s, ps[0].0, ps[0].1), ps.skip(1))
    }
}

/// The value under the first entry whose key is `k`.
pub open spec fn kv_get<V>(s: Seq<(Seq<char>, V)>, k: Seq<char>) -> Option<V>
    decreases s.len(),
{
    if s.len() == 0 {
        None
    } else if s[0].0 == k {
        Some(s[0].1)
    } else {
        kv_get(s.skip(1), k)
    }
}

/// What `kv_insert` does: sortedness is kept, the key set gains `k`, and
/// every pair of the result is the new pair or one of the input.
pub proof fn lemma_kv_insert<V>(s: Seq<(Seq<char>, V)>, k: Seq<char>, v: V)
    requires
        kv_sorted(s),
    ensures
        kv_sorted(kv_insert(s, k, v)),
        forall|k2: Seq<char>|
            (#[trigger] kv_has_key(kv_insert(s, k, v), k2)) <==> (kv_has_key(s, k2) || k2 == k),
        forall|p: (Seq<char>, V)|
            (#[trigger] kv_has_pair(kv_insert(s, k, v), p)) ==> p == (k, v) || kv_has_pair(s, p),
    decreases s.len(),
{
    let r = kv_insert(s, k, v);
    if s.len() == 0 {
        assert forall|k2: Seq<char>|
            (#[trigger] kv_has_key(r, k2)) <==> (kv_has_key(s, k2) || k2 == k) by {
            if k2 == k {
                assert(r[0].0 == k);
            }
        }
        assert forall|p: (Seq<char>, V)| #[trigger]
            kv_has_pair(r, p) implies p == (k, v) || kv_has_pair(s, p) by {
            let i = choose|i: int| 0 <= i < r.len() && r[i] == p;
            assert(r[0] == (k, v));
        }
    } else if lex_lt(k, s[0].0) {
        assert forall|i: int, j: int| 0 <= i < j < r.len() implies lex_lt(r[i].0, r[j].0) by {
            if i == 0 {
                assert(r[j] == s[j - 1]);
                if j > 1 {
                    crate::strutil::lemma_lex_trans(k, s[0].0, s[j - 1].0);
                }
            } else {
                assert(r[i] == s[i - 1]);
                assert(r[j] == s[j - 1]);
            }
        }
        assert forall|k2: Seq<char>|
            (#[trigger] kv_has_key(r, k2)) <==> (kv_has_key(s, k2) || k2 == k) by {
            if kv_has_key(r, k2) {
                let i = choose|i: int| 0 <= i < r.len() && r[i].0 == k2;
                if i > 0 {
                    assert(s[i - 1].0 == k2);
                }
            }
            if kv_has_key(s, k2) {
                let i = choose|i: int| 0 <= i < s.len() && s[i].0 == k2;
                assert(r[i + 1].0 == k2);
            }
            if k2 == k {
                assert(r[0].0 == k);
            }
        }
        assert forall|p: (Seq<char>, V)| #[trigger]
            kv_has_pair(r, p) implies p == (k, v) || kv_has_pair(s, p) by {
            let i = choose|i: int| 0 <= i < r.len() && r[i] == p;
            if i > 0 {
                assert(s[i - 1] == p);
            } else {
                assert(r[0] == (k, v));
            }
        }
    } else if k == s[0].0 {
        assert(forall|j: int| 0 <= j < s.len() - 1 ==> s.skip(1)[j] == s[j + 1]);
        assert forall|i: int, j: int| 0 <= i < j < r.len() implies lex_lt(r[i].0, r[j].0) by {
            if i == 0 {
                assert(r[j] == s[j]);
                assert(lex_lt(s[0].0, s[j].0));
            } else {
                assert(r[i] == s[i]);
                assert(r[j] == s[j]);
            }
        }
        assert forall|k2: Seq<char>|
            (#[trigger] kv_has_key(r, k2)) <==> (kv_has_key(s, k2) || k2 == k) by {
            if kv_has_key(r, k2) {
                let i = choose|i: int| 0 <= i < r.len() && r[i].0 == k2;
                if i > 0 {
                    assert(s[i].0 == k2);
                }
            }
            if kv_has_key(s, k2) {
                let i = choose|i: int| 0 <= i < s.len() && s[i].0 == k2;
                if i == 0 {
                    assert(r[0].0 == k);
                } else {
                    assert(r[i].0 == k2);
                }
            }
            if k2 == k {
                assert(r[0].0 == k);
            }
        }
        assert forall|p: (Seq<char>, V)| #[trigger]
            kv_has_pair(r, p) implies p == (k, v) || kv_has_pair(s, p) by {
            let i = choose|i: int| 0 <= i < r.len() && r[i] == p;
            if i > 0 {
                assert(s[i] == p);
            } else {
                assert(r[0] == (k, v));
            }
        }
    } else {
        crate::strutil::lemma_lex_trichotomy(k, s[0].0);
        assert(forall|j: int| 0 <= j < s.len() - 1 ==> s.skip(1)[j] == s[j + 1]);
        assert(kv_sorted(s.skip(1)));
        lemma_kv_insert(s.skip(1), k, v);
        let rest = kv_insert(s.skip(1), k, v);
        assert forall|i: int| 0 <= i < rest.len() implies lex_lt(s[0].0, #[trigger] rest[i].0) by {
            assert(kv_has_key(rest, rest[i].0));
            if kv_has_key(s.skip(1), rest[i].0) {
                let j = choose|j: int| 0 <= j < s.skip(1).len() && s.skip(1)[j].0 == rest[i].0;
                assert(s[j + 1].0 == rest[i].0);
            } else {
                assert(rest[i].0 == k);
            }
        }
        assert forall|i: int, j: int| 0 <= i < j < r.len() implies lex_lt(r[i].0, r[j].0) by {
            if i == 0 {
                assert(r[j] == rest[j - 1]);
            } else {
                assert(r[i] == rest[i - 1]);
                assert(r[j] == rest[j - 1]);
            }
        }
        assert forall|k2: Seq<char>|
            (#[trigger] kv_has_key(r, k2)) <==> (kv_has_key(s, k2) || k2 == k) by {
            if kv_has_key(r, k2) {
                let i = choose|i: int| 0 <= i < r.len() && r[i].0 == k2;
                if i == 0 {
                    assert(s[0].0 == k2);
                } else {
                    assert(rest[i - 1].0 == k2);
                    assert(kv_has_key(rest, k2));
                    if kv_has_key(s.skip(1), k2) {
                        let j = choose|j: int| 0 <= j < s.skip(1).len() && s.skip(1)[j].0 == k2;
                        assert(s[j + 1].0 == k2);
                    }
                }
            }
            if kv_has_key(s, k2) {
                let i = choose|i: int| 0 <= i < s.len() && s[i].0 == k2;
                if i == 0 {
                    assert(r[0].0 == k2);
                } else {
                    assert(s.skip(1)[i - 1].0 == k2);
                    assert(kv_has_key(s.skip(1), k2));
                    assert(kv_has_key(rest, k2));
                    let j = choose|j: int| 0 <= j < rest.len() && rest[j].0 == k2;
                    assert(r[j + 1].0 == k2);
                }
            }
            if k2 == k {
                assert(kv_has_key(rest, k));
                let j = choose|j: int| 0 <= j < rest.len() && rest[j].0 == k;
                assert(r[j + 1].0 == k2);
            }
        }
        assert forall|p: (Seq<char>, V)| #[trigger]
            kv_has_pair(r, p) implies p == (k, v) || kv_has_pair(s, p) by {
            let i = choose|i: int| 0 <= i < r.len() && r[i] == p;
            if i == 0 {
                assert(s[0] == p);
            } else {
                assert(rest[i - 1] == p);
                assert(kv_has_pair(rest, p));
                if kv_has_pair(s.skip(1), p) {
                    let j = choose|j: int| 0 <= j < s.skip(1).len() && s.skip(1)[j] == p;
                    assert(s[j + 1] == p);
                }
            }
        }
    }
}

/// Pairs whose keys are strictly below `k` at the front pass through an
/// insert unchanged.
proof fn lemma_kv_insert_split<V>(s: Seq<(Seq<char>, V)>, k: Seq<char>, v: V, i: int)
    requires
        0 <= i <= s.len(),
        forall|j: int| 0 <= j < i ==> lex_lt(#[trigger] s[j].0, k),
    ensures
        kv_insert(s, k, v) == s.take(i) + kv_insert(s.skip(i), k, v),
    decreases i,
{
    if i == 0 {
        assert(s.take(0) =~= Seq::<(Seq<char>, V)>::empty());
        assert(s.skip(0) =~= s);
        assert(kv_insert(s, k, v) =~= s.take(0) + kv_insert(s.skip(0), k, v));
    } else {
        assert(lex_lt(s[0].0, k));
        crate::strutil::lemma_lex_trichotomy(k, s[0].0);
        assert(kv_insert(s, k, v) == seq![s[0]] + kv_insert(s.skip(1), k, v));
        assert(forall|j: int| 0 <= j < s.len() - 1 ==> s.skip(1)[j] == s[j + 1]);
        lemma_kv_insert_split(s.skip(1), k, v, i - 1);
        assert(s.skip(1).skip(i - 1) =~= s.skip(i));
        assert(seq![s[0]] + (s.skip(1).take(i - 1) + kv_insert(s.skip(i), k, v)) =~= (seq![s[0]]
            + s.skip(1).take(i - 1)) + kv_insert(s.skip(i), k, v));
        assert(seq![s[0]] + s.skip(1).take(i - 1) =~= s.take(i));
    }
}

/// A first match at `i` is what `kv_get` returns.
pub proof fn lemma_kv_get_at<V>(s: Seq<(Seq<char>, V)>, k: Seq<char>, i: int)
    requires
        0 <= i < s.len(),
        s[i].0 == k,
        forall|j: int| 0 <= j < i ==> (#[trigger] s[j].0) != k,
    ensures
        kv_get(s, k) == Some(s[i].1),
    decreases i,
{
    if i > 0 {
        assert(forall|j: int| 0 <= j < s.len() - 1 ==> s.skip(1)[j] == s[j + 1]);
        lemma_kv_get_at(s.skip(1), k, i - 1);
    }
}

/// With no match anywhere, `kv_get` returns nothing.
pub proof fn lemma_kv_get_none<V>(s: Seq<(Seq<char>, V)>, k: Seq<char>)
    requires
        forall|j: int| 0 <= j < s.len() ==> (#[trigger] s[j].0) != k,
    ensures
        kv_get(s, k) is None,
    decreases s.len(),
{
    if s.len() > 0 {
        assert(forall|j: int| 0 <= j < s.len() - 1 ==> s.skip(1)[j] == s[j + 1]);
        lemma_kv_get_none(s.skip(1), k);
    }
}

/// `kv_get` finds a value exactly when the key is present.
pub proof fn lemma_kv_get_some_iff<V>(s: Seq<(Seq<char>, V)>, k: Seq<char>)
    ensures
        (kv_get(s, k) is Some) <==> kv_has_key(s, k),
    decreases s.len(),
{
    if s.len() > 0 {
        assert(forall|j: int| 0 <= j < s.len() - 1 ==> s.skip(1)[j] == s[j + 1]);
        lemma_kv_get_some_iff(s.skip(1), k);
        if s[0].0 == k {
            assert(kv_has_key(s, k));
        } else {
            if kv_has_key(s.skip(1), k) {
                let i = choose|i: int| 0 <= i < s.skip(1).len() && s.skip(1)[i].0 == k;
                assert(s[i + 1].0 == k);
            }
            if kv_has_key(s, k) {
                let i = choose|i: int| 0 <= i < s.len() && s[i].0 == k;
                assert(s.skip(1)[i - 1].0 == k);
            }
        }
    }
}

/// Whether an entry vector holds an entry whose key is `k`.
pub open spec fn vk_has<EV>(s: Seq<(String, EV)>, k: Seq<char>) -> bool {
    exists|i: int| 0 <= i < s.len() && s[i].0@ == k
}

/// The value under the first entry of an entry vector whose key is `k`.
pub open spec fn vk_get<EV>(s: Seq<(String, EV)>, k: Seq<char>) -> Option<EV>
    decreases s.len(),
{
    if s.len() == 0 {
        None
    } else if s[0].0@ == k {
        Some(s[0].1)
    } else {
        vk_get(s.skip(1), k)
    }
}

/// A first match at `i` is what `vk_get` returns.
pub proof fn lemma_vk_get_at<EV>(s: Seq<(String, EV)>, k: Seq<char>, i: int)
    requires
        0 <= i < s.len(),
        s[i].0@ == k,
        forall|j: int| 0 <= j < i ==> (#[trigger] s[j].0@) != k,
    ensures
        vk_get(s, k) == Some(s[i].1),
    decreases i,
{
    if i > 0 {
        assert(forall|j: int| 0 <= j < s.len() - 1 ==> s.skip(1)[j] == s[j + 1]);
        lemma_vk_get_at(s.skip(1), k, i - 1);
    }
}

/// With no match anywhere, `vk_get` returns nothing.
pub proof fn lemma_vk_get_none<EV>(s: Seq<(String, EV)>, k: Seq<char>)
    requires
        forall|j: int| 0 <= j < s.len() ==> (#[trigger] s[j].0@) != k,
    ensures
        vk_get(s, k) is None,
    decreases s.len(),
{
    if s.len() > 0 {
        assert(forall|j: int| 0 <= j < s.len() - 1 ==> s.skip(1)[j] == s[j + 1]);
        lemma_vk_get_none(s.skip(1), k);
    }
}

/// What `vk_get` returns is one of the entries' values.
pub proof fn lemma_vk_get_index<EV>(s: Seq<(String, EV)>, k: Seq<char>)
    requires
        vk_get(s, k) is Some,
    ensures
        exists|i: int|
            0 <= i < s.len() && (#[trigger] s[i]).0@ == k && s[i].1 == vk_get(s, k)->0,
    decreases s.len(),
{
    if s.len() > 0 {
        if s[0].0@ == k {
            assert(s[0].0@ == k && s[0].1 == vk_get(s, k)->0);
        } else {
            assert(forall|j: int| 0 <= j < s.len() - 1 ==> s.skip(1)[j] == s[j + 1]);
            lemma_vk_get_index(s.skip(1), k);
            let i = choose|i: int|
                0 <= i < s.skip(1).len() && (#[trigger] s.skip(1)[i]).0@ == k && s.skip(1)[i].1
                    == vk_get(s.skip(1), k)->0;
            assert(s[i + 1].0@ == k && s[i + 1].1 == vk_get(s, k)->0);
        }
    }
}

/// `vk_get` finds a value exactly when the key is present.
pub proof fn lemma_vk_get_some_iff<EV>(s: Seq<(String, EV)>, k: Seq<char>)
    ensures
        (vk_get(s, k) is Some) <==> vk_has(s, k),
    decreases s.len(),
{
    if s.len() > 0 {
        assert(forall|j: int| 0 <= j < s.len() - 1 ==> s.skip(1)[j] == s[j + 1]);
        lemma_vk_get_some_iff(s.skip(1), k);
        if s[0].0@ == k {
            assert(vk_has(s, k));
        } else {
            if vk_has(s.skip(1), k) {
                let i = choose|i: int| 0 <= i < s.skip(1).len() && s.skip(1)[i].0@ == k;
                assert(s[i + 1].0@ == k);
            }
            if vk_has(s, k) {
                let i = choose|i: int| 0 <= i < s.len() && s[i].0@ == k;
                assert(s.skip(1)[i - 1].0@ == k);
            }
        }
    }
}

/// The index of the first entry whose key is `k`, if any.
pub fn kv_find<EV>(m: &Vec<(String, EV)>, k: &str) -> (r: Option<usize>)
    ensures
        match r {
            Some(i) => i < m@.len() && m@[i as int].0@ == k@ && (forall|j: int|
                0 <= j < i ==> (#[trigger] m@[j].0@) != k@),
            None => forall|j: int| 0 <= j < m@.len() ==> (#[trigger] m@[j].0@) != k@,
        },
{
    let mut i: usize = 0;
    while i < m.len()
        invariant
            i <= m@.len(),
            forall|j: int| 0 <= j < i ==> (#[trigger] m@[j].0@) != k@,
        decreases m@.len() - i,
    {
        let e = &m[i];
        if crate::strutil::str_eq(e.0.as_str(), k) {
            return Some(i);
        }
        i += 1;
    }
    None
}

/// The first position whose key is not strictly below `k`.
fn kv_find_pos<EV>(m: &Vec<(String, EV)>, k: &str) -> (i: usize)
    ensures
        0 <= i <= m@.len(),
        forall|j: int| 0 <= j < i ==> lex_lt(#[trigger] m@[j].0@, k@),
        i < m@.len() ==> !lex_lt(m@[i as int].0@, k@),
{
    let mut i: usize = 0;
    while i < m.len()
        invariant
            i <= m@.len(),
            forall|j: int| 0 <= j < i ==> lex_lt(#[trigger] m@[j].0@, k@),
        decreases m@.len() - i,
    {
        let e = &m[i];
        if !crate::strutil::str_lt(e.0.as_str(), k) {
            return i;
        }
        i += 1;
    }
    i
}

/// The abstract entries of a key/value vector.
pub open spec fn kv_view<EV: DeepView>(m: Seq<(String, EV)>) -> Seq<(Seq<char>, EV::V)>
    decreases m.len(),
{
    if m.len() == 0 {
        Seq::empty()
    } else {
        kv_view(m.drop_last()).push((m.last().0@, m.last().1.deep_view()))
    }
}

/// `kv_view` is pointwise.
pub broadcast proof fn lemma_kv_view_index<EV: DeepView>(m: Seq<(String, EV)>)
    ensures
        (#[trigger] kv_view(m)).len() == m.len(),
        forall|i: int| 0 <= i < m.len() ==> kv_view(m)[i] == (m[i].0@, m[i].1.deep_view()),
    decreases m.len(),
{
    if m.len() > 0 {
        lemma_kv_view_index(m.drop_last());
    }
}

/// Sorted insert of `(k, v)` into a key/value vector, replacing an equal key.
pub fn kv_insert_vec<EV: DeepView>(m: &mut Vec<(String, EV)>, k: String, v: EV)
    requires
        kv_sorted(kv_view(old(m)@)),
    ensures
        kv_view(final(m)@) == kv_insert(kv_view(old(m)@), k@, v.deep_view()),
        kv_sorted(kv_view(final(m)@)),
{
    let ghost m0 = old(m)@;
    let ghost mv = kv_view(m0);
    let ghost vv = v.deep_view();
    proof {
        lemma_kv_view_index(m0);
        lemma_kv_insert(mv, k@, vv);
    }
    let i = kv_find_pos(m, k.as_str());
    proof {
        lemma_kv_insert_split(mv, k@, vv, i as int);
    }
    let replace = if i < m.len() {
        let e = &m[i];
        crate::strutil::str_eq(e.0.as_str(), k.as_str())
    } else {
        false
    };
    if replace {
        proof {
            crate::strutil::lemma_lex_trichotomy(k@, k@);
            assert(mv.skip(i as int)[0] == mv[i as int]);
            assert(mv.skip(i as int).skip(1) =~= mv.skip(i as int + 1));
            assert(kv_insert(mv.skip(i as int), k@, vv) == seq![(k@, vv)] + mv.skip(i as int + 1));
        }
        let _replaced = m.remove(i);
        m.insert(i, (k, v));
        proof {
            assert(m@ =~= m0.take(i as int) + seq![m@[i as int]] + m0.skip(i as int + 1));
            lemma_kv_view_index(m@);
            assert(kv_view(m@) =~= mv.take(i as int) + (seq![(k@, vv)] + mv.skip(i as int + 1)));
        }
    } else {
        proof {
            if i < m@.len() {
                assert(mv[i as int].0 == m0[i as int].0@);
                crate::strutil::lemma_lex_trichotomy(k@, mv[i as int].0);
                assert(lex_lt(k@, mv.skip(i as int)[0].0));
                assert(kv_insert(mv.skip(i as int), k@, vv) == seq![(k@, vv)] + mv.skip(i as int));
            } else {
                assert(mv.skip(i as int) =~= Seq::<(Seq<char>, EV::V)>::empty());
                assert(kv_insert(mv.skip(i as int), k@, vv) =~= seq![(k@, vv)] + mv.skip(i as int));
            }
        }
        m.insert(i, (k, v));
        proof {
            assert(m@ =~= m0.take(i as int) + seq![m@[i as int]] + m0.skip(i as int));
            lemma_kv_view_index(m@);
            assert(kv_view(m@) =~= mv.take(i as int) + (seq![(k@, vv)] + mv.skip(i as int)));
        }
    }
}

/// Names strictly ascending in lexicographic order (so also unique).
pub open spec fn strs_sorted(s: Seq<Seq<char>>) -> bool {
    forall|i: int, j: int| 0 <= i < j < s.len() ==> lex_lt(s[i], s[j])
}

/// Whether `s` holds the name `k`.
pub open spec fn strs_have(s: Seq<Seq<char>>, k: Seq<char>) -> bool {
    exists|i: int| 0 <= i < s.len() && s[i] == k
}

/// Inserting a name into a sorted name set: placed before the first greater
/// name, dropped if already present.
pub open spec fn strs_insert(s: Seq<Seq<char>>, k: Seq<char>) -> Seq<Seq<char>>
    decreases s.len(),
{
    if s.len() == 0 {
        seq![k]
    } else if lex_lt(k, s[0]) {
        seq![k] + s
    } else if k == s[0] {
        s
    } else {
        seq![s[0]] + strs_insert(s.skip(1), k)
    }
}

/// Inserting every name of `ks` in order.
pub open spec fn strs_insert_all(s: Seq<Seq<char>>, ks: Seq<Seq<char>>) -> Seq<Seq<char>>
    decreases ks.len(),
{
    if ks.len() == 0 {
        s
    } else {
        strs_insert_all(strs_insert(s, ks[0]), ks.skip(1))
    }
}

/// What `strs_insert` does: sortedness is kept and the name set gains `k`.
pub proof fn lemma_strs_insert(s: Seq<Seq<char>>, k: Seq<char>)
    requires
        strs_sorted(s),
    ensures
        strs_sorted(strs_insert(s, k)),
        forall|k2: Seq<char>|
            (#[trigger] strs_have(strs_insert(s, k), k2)) <==> (strs_have(s, k2) || k2 == k),
    decreases s.len(),
{
    let r = strs_insert(s, k);
    if s.len() == 0 {
        assert forall|k2: Seq<char>|
            (#[trigger] strs_have(r, k2)) <==> (strs_have(s, k2) || k2 == k) by {
            if k2 == k {
                assert(r[0] == k);
            }
        }
    } else if lex_lt(k, s[0]) {
        assert forall|i: int, j: int| 0 <= i < j < r.len() implies lex_lt(r[i], r[j]) by {
            if i == 0 {
                assert(r[j] == s[j - 1]);
                if j > 1 {
                    crate::strutil::lemma_lex_trans(k, s[0], s[j - 1]);
                }
            } else {
                assert(r[i] == s[i - 1]);
                assert(r[j] == s[j - 1]);
            }
        }
        assert forall|k2: Seq<char>|
            (#[trigger] strs_have(r, k2)) <==> (strs_have(s, k2) || k2 == k) by {
            if strs_have(r, k2) {
                let i = choose|i: int| 0 <= i < r.len() && r[i] == k2;
                if i > 0 {
                    assert(s[i - 1] == k2);
                }
            }
            if strs_have(s, k2) {
                let i = choose|i: int| 0 <= i < s.len() && s[i] == k2;
                assert(r[i + 1] == k2);
            }
            if k2 == k {
                assert(r[0] == k);
            }
        }
    } else if k == s[0] {
        assert forall|k2: Seq<char>|
            (#[trigger] strs_have(r, k2)) <==> (strs_have(s, k2) || k2 == k) by {
            if k2 == k {
                assert(r[0] == k);
            }
        }
    } else {
        crate::strutil::lemma_lex_trichotomy(k, s[0]);
        assert(forall|j: int| 0 <= j < s.len() - 1 ==> s.skip(1)[j] == s[j + 1]);
        assert(strs_sorted(s.skip(1)));
        lemma_strs_insert(s.skip(1), k);
        let rest = strs_insert(s.skip(1), k);
        assert forall|i: int| 0 <= i < rest.len() implies lex_lt(s[0], #[trigger] rest[i]) by {
            assert(strs_have(rest, rest[i]));
            if strs_have(s.skip(1), rest[i]) {
                let j = choose|j: int| 0 <= j < s.skip(1).len() && s.skip(1)[j] == rest[i];
                assert(s[j + 1] == rest[i]);
            } else {
                assert(rest[i] == k);
            }
        }
        assert forall|i: int, j: int| 0 <= i < j < r.len() implies lex_lt(r[i], r[j]) by {
            if i == 0 {
                assert(r[j] == rest[j - 1]);
            } else {
                assert(r[i] == rest[i - 1]);
                assert(r[j] == rest[j - 1]);
            }
        }
        assert forall|k2: Seq<char>|
            (#[trigger] strs_have(r, k2)) <==> (strs_have(s, k2) || k2 == k) by {
            if strs_have(r, k2) {
                let i = choose|i: int| 0 <= i < r.len() && r[i] == k2;
                if i == 0 {
                    assert(s[0] == k2);
                } else {
                    assert(rest[i - 1] == k2);
                    assert(strs_have(rest, k2));
                    if strs_have(s.skip(1), k2) {
                        let j = choose|j: int| 0 <= j < s.skip(1).len() && s.skip(1)[j] == k2;
                        assert(s[j + 1] == k2);
                    }
                }
            }
            if strs_have(s, k2) {
                let i = choose|i: int| 0 <= i < s.len() && s[i] == k2;
                if i == 0 {
                    assert(r[0] == k2);
                } else {
                    assert(s.skip(1)[i - 1] == k2);
                    assert(strs_have(s.skip(1), k2));
                    assert(strs_have(rest, k2));
                    let j = choose|j: int| 0 <= j < rest.len() && rest[j] == k2;
                    assert(r[j + 1] == k2);
                }
            }
            if k2 == k {
                assert(strs_have(rest, k));
                let j = choose|j: int| 0 <= j < rest.len() && rest[j] == k;
                assert(r[j + 1] == k2);
            }
        }
    }
}

/// Names strictly below `k` at the front pass through an insert unchanged.
proof fn lemma_strs_insert_split(s: Seq<Seq<char>>, k: Seq<char>, i: int)
    requires
        0 <= i <= s.len(),
        forall|j: int| 0 <= j < i ==> lex_lt(#[trigger] s[j], k),
    ensures
        strs_insert(s, k) == s.take(i) + strs_insert(s.skip(i), k),
    decreases i,
{
    if i == 0 {
        assert(s.take(0) =~= Seq::<Seq<char>>::empty());
        assert(s.skip(0) =~= s);
        assert(strs_insert(s, k) =~= s.take(0) + strs_insert(s.skip(0), k));
    } else {
        assert(lex_lt(s[0], k));
        crate::strutil::lemma_lex_trichotomy(k, s[0]);
        assert(strs_insert(s, k) == seq![s[0]] + strs_insert(s.skip(1), k));
        assert(forall|j: int| 0 <= j < s.len() - 1 ==> s.skip(1)[j] == s[j + 1]);
        lemma_strs_insert_split(s.skip(1), k, i - 1);
        assert(s.skip(1).skip(i - 1) =~= s.skip(i));
        assert(seq![s[0]] + (s.skip(1).take(i - 1) + strs_insert(s.skip(i), k)) =~= (seq![s[0]]
            + s.skip(1).take(i - 1)) + strs_insert(s.skip(i), k));
        assert(seq![s[0]] + s.skip(1).take(i - 1) =~= s.take(i));
    }
}

/// The first position whose name is not strictly below `k`.
fn strs_find_pos(v: &Vec<String>, k: &str) -> (i: usize)
    ensures
        0 <= i <= v@.len(),
        forall|j: int| 0 <= j < i ==> lex_lt(#[trigger] v@[j]@, k@),
        i < v@.len() ==> !lex_lt(v@[i as int]@, k@),
{
    let mut i: usize = 0;
    while i < v.len()
        invariant
            i <= v@.len(),
            forall|j: int| 0 <= j < i ==> lex_lt(#[trigger] v@[j]@, k@),
        decreases v@.len() - i,
    {
        let e = &v[i];
        if !crate::strutil::str_lt(e.as_str(), k) {
            return i;
        }
        i += 1;
    }
    i
}

/// Sorted insert of a name into a name vector, dropped if already present.
pub fn strset_insert(v: &mut Vec<String>, k: String)
    requires
        strs_sorted(old(v).deep_view()),
    ensures
        final(v).deep_view() == strs_insert(old(v).deep_view(), k@),
        strs_sorted(final(v).deep_view()),
{
    let ghost v0 = old(v).deep_view();
    proof {
        lemma_strs_insert(v0, k@);
        assert(forall|i: int| 0 <= i < old(v)@.len() ==> v0[i] == #[trigger] old(v)@[i]@);
    }
    let i = strs_find_pos(v, k.as_str());
    proof {
        assert(forall|j: int| 0 <= j < i ==> lex_lt(#[trigger] v0[j], k@));
        lemma_strs_insert_split(v0, k@, i as int);
    }
    let same = if i < v.len() {
        let e = &v[i];
        crate::strutil::str_eq(e.as_str(), k.as_str())
    } else {
        false
    };
    if same {
        proof {
            crate::strutil::lemma_lex_trichotomy(k@, k@);
            assert(v0.skip(i as int)[0] == v0[i as int]);
            assert(strs_insert(v0.skip(i as int), k@) == v0.skip(i as int));
            assert(strs_insert(v0, k@) =~= v0.take(i as int) + v0.skip(i as int));
            assert(strs_insert(v0, k@) =~= v0);
        }
    } else {
        proof {
            if i < v@.len() {
                assert(v0[i as int] == v@[i as int]@);
                crate::strutil::lemma_lex_trichotomy(k@, v0[i as int]);
                assert(lex_lt(k@, v0.skip(i as int)[0]));
                assert(strs_insert(v0.skip(i as int), k@) == seq![k@] + v0.skip(i as int));
            } else {
                assert(v0.skip(i as int) =~= Seq::<Seq<char>>::empty());
                assert(strs_insert(v0.skip(i as int), k@) =~= seq![k@] + v0.skip(i as int));
            }
        }
        let ghost vs0 = v@;
        v.insert(i, k);
        proof {
            assert(v@ =~= vs0.take(i as int) + seq![v@[i as int]] + vs0.skip(i as int));
            assert(forall|j: int| 0 <= j < v@.len() ==> v.deep_view()[j] == #[trigger] v@[j]@);
            assert(v.deep_view() =~= v0.take(i as int) + (seq![k@] + v0.skip(i as int)));
        }
    }
}

} // verus!
