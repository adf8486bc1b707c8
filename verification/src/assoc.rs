//! Sorted association sequences: key/value pairs with strictly ascending
//! byte-string keys. The state table's images and the in-memory cache are
//! both modelled as such sequences.

use vstd::prelude::*;

use crate::order::{lemma_lex_asym, lemma_lex_total, lemma_lex_trans, lex_lt, Cmp, cmp_bytes};

verus! {

/// Keys strictly ascending: each entry's key sorts before every later one.
pub open spec fn assoc_sorted<V>(s: Seq<(Seq<u8>, V)>) -> bool {
    forall|i: int, j: int|
        0 <= i < j < s.len() ==> lex_lt(#[trigger] s[i].0, #[trigger] s[j].0)
}

/// How many entries have a key sorting before `k`.
pub open spec fn assoc_lb<V>(s: Seq<(Seq<u8>, V)>, k: Seq<u8>) -> int
    decreases s.len(),
{
    if s.len() == 0 {
        0
    } else if lex_lt(s[0].0, k) {
        1 + assoc_lb(s.skip(1), k)
    } else {
        0
    }
}

/// The key is present.
pub open spec fn assoc_has<V>(s: Seq<(Seq<u8>, V)>, k: Seq<u8>) -> bool {
    let p = assoc_lb(s, k);
    p < s.len() && s[p].0 == k
}

/// The value stored under the key, if any.
pub open spec fn assoc_find<V>(s: Seq<(Seq<u8>, V)>, k: Seq<u8>) -> Option<V> {
    if assoc_has(s, k) {
        Option::Some(s[assoc_lb(s, k)].1)
    } else {
        Option::None
    }
}

/// Insert or replace: the sequence with `v` stored under `k`.
pub open spec fn assoc_upsert<V>(s: Seq<(Seq<u8>, V)>, k: Seq<u8>, v: V) -> Seq<(Seq<u8>, V)> {
    let p = assoc_lb(s, k);
    if assoc_has(s, k) {
        s.update(p, (k, v))
    } else {
        s.take(p) + seq![(k, v)] + s.skip(p)
    }
}

/// The sequence with the entry under `k` removed, if it was there.
pub open spec fn assoc_remove<V>(s: Seq<(Seq<u8>, V)>, k: Seq<u8>) -> Seq<(Seq<u8>, V)> {
    let p = assoc_lb(s, k);
    if assoc_has(s, k) {
        s.take(p) + s.skip(p + 1)
    } else {
        s
    }
}

/// On a sorted sequence, `assoc_lb` splits it: strictly smaller keys before,
/// keys at least `k` from that position on.
pub proof fn lemma_assoc_lb_props<V>(s: Seq<(Seq<u8>, V)>, k: Seq<u8>)
    requires
        assoc_sorted(s),
    ensures
        0 <= assoc_lb(s, k) <= s.len(),
        forall|i: int| 0 <= i < assoc_lb(s, k) ==> lex_lt(#[trigger] s[i].0, k),
        forall|i: int|
            assoc_lb(s, k) <= i < s.len() ==> !lex_lt(#[trigger] s[i].0, k),
    decreases s.len(),
{
    if s.len() == 0 {
    } else if lex_lt(s[0].0, k) {
        assert(assoc_sorted(s.skip(1))) by {
            assert(forall|i: int|
                0 <= i < s.skip(1).len() ==> #[trigger] s.skip(1)[i] == s[i + 1]);
        }
        lemma_assoc_lb_props(s.skip(1), k);
        let p = assoc_lb(s, k);
        assert forall|i: int| 0 <= i < p implies lex_lt(#[trigger] s[i].0, k) by {
            if i >= 1 {
                assert(s.skip(1)[i - 1] == s[i]);
            }
        }
        assert forall|i: int| p <= i < s.len() implies !lex_lt(#[trigger] s[i].0, k) by {
            assert(s.skip(1)[i - 1] == s[i]);
        }
    } else {
        assert forall|i: int| 0 <= i < s.len() implies !lex_lt(#[trigger] s[i].0, k) by {
            if i > 0 {
                // s[0].0 <= k in the order sense, and s[0].0 < s[i].0
                if lex_lt(s[i].0, k) {
                    lemma_lex_trans(s[0].0, s[i].0, k);
                }
            }
        }
    }
}

/// Any position with the split property is the lower bound.
pub proof fn lemma_assoc_lb_unique<V>(s: Seq<(Seq<u8>, V)>, k: Seq<u8>, p: int)
    requires
        assoc_sorted(s),
        0 <= p <= s.len(),
        forall|i: int| 0 <= i < p ==> lex_lt(#[trigger] s[i].0, k),
        forall|i: int| p <= i < s.len() ==> !lex_lt(#[trigger] s[i].0, k),
    ensures
        assoc_lb(s, k) == p,
{
    lemma_assoc_lb_props(s, k);
    let q = assoc_lb(s, k);
    if q < p {
        assert(lex_lt(s[q].0, k));
    }
    if p < q {
        assert(lex_lt(s[p].0, k));
    }
}

/// What an upsert does to a sorted sequence, entry by entry.
pub proof fn lemma_assoc_upsert_props<V>(s: Seq<(Seq<u8>, V)>, k: Seq<u8>, v: V)
    requires
        assoc_sorted(s),
    ensures
        assoc_sorted(assoc_upsert(s, k, v)),
        assoc_has(assoc_upsert(s, k, v), k),
        assoc_find(assoc_upsert(s, k, v), k) == Option::Some(v),
        assoc_upsert(s, k, v).len() == if assoc_has(s, k) {
            s.len()
        } else {
            s.len() + 1
        },
        assoc_lb(assoc_upsert(s, k, v), k) == assoc_lb(s, k),
        forall|i: int|
            0 <= i < assoc_lb(s, k) ==> #[trigger] assoc_upsert(s, k, v)[i] == s[i],
        assoc_upsert(s, k, v)[assoc_lb(s, k)] == (k, v),
        forall|i: int|
            assoc_lb(s, k) < i < assoc_upsert(s, k, v).len() ==> #[trigger] assoc_upsert(
                s,
                k,
                v,
            )[i] == s[i - (if assoc_has(s, k) {
                0int
            } else {
                1int
            })],
{
    lemma_assoc_lb_props(s, k);
    let p = assoc_lb(s, k);
    let r = assoc_upsert(s, k, v);
    if assoc_has(s, k) {
        assert(r == s.update(p, (k, v)));
        assert forall|i: int, j: int| 0 <= i < j < r.len() implies lex_lt(
            #[trigger] r[i].0,
            #[trigger] r[j].0,
        ) by {
            assert(r[i].0 == s[i].0);
            assert(r[j].0 == s[j].0);
        }
        lemma_assoc_lb_unique(r, k, p);
    } else {
        assert(r.len() == s.len() + 1);
        assert(r[p] == (k, v));
        assert(forall|i: int| 0 <= i < p ==> #[trigger] r[i] == s[i]);
        assert(forall|i: int| p < i < r.len() ==> #[trigger] r[i] == s[i - 1]);
        // k itself sorts strictly between the two halves
        assert(p < s.len() ==> lex_lt(k, s[p].0)) by {
            if p < s.len() {
                lemma_lex_total(s[p].0, k);
            }
        }
        assert forall|i: int, j: int| 0 <= i < j < r.len() implies lex_lt(
            #[trigger] r[i].0,
            #[trigger] r[j].0,
        ) by {
            if i < p && j == p {
                assert(lex_lt(s[i].0, k));
            } else if i == p && j > p {
                if p < s.len() {
                    if j - 1 > p {
                        lemma_lex_trans(k, s[p].0, s[j - 1].0);
                    }
                }
            } else if i < p && j > p {
                assert(lex_lt(s[i].0, s[j - 1].0)) by {
                    if i == j - 1 {
                        assert(lex_lt(s[i].0, k));
                        assert(false);
                    }
                }
            } else {
            }
        }
        assert forall|i: int| p <= i < r.len() implies !lex_lt(#[trigger] r[i].0, k) by {
            if i == p {
                crate::order::lemma_lex_irrefl(k);
            }
        }
        lemma_assoc_lb_unique(r, k, p);
    }
}

/// What a removal does to a sorted sequence, entry by entry.
pub proof fn lemma_assoc_remove_props<V>(s: Seq<(Seq<u8>, V)>, k: Seq<u8>)
    requires
        assoc_sorted(s),
    ensures
        assoc_sorted(assoc_remove(s, k)),
        !assoc_has(assoc_remove(s, k), k),
        assoc_remove(s, k).len() == if assoc_has(s, k) {
            s.len() - 1
        } else {
            s.len() as int
        },
        forall|i: int|
            0 <= i < assoc_lb(s, k) ==> #[trigger] assoc_remove(s, k)[i] == s[i],
        forall|i: int|
            assoc_lb(s, k) <= i < assoc_remove(s, k).len() ==> #[trigger] assoc_remove(s, k)[i]
                == s[i + (if assoc_has(s, k) {
                1int
            } else {
                0int
            })],
{
    lemma_assoc_lb_props(s, k);
    let p = assoc_lb(s, k);
    let r = assoc_remove(s, k);
    if assoc_has(s, k) {
        assert(r.len() == s.len() - 1);
        assert(forall|i: int| 0 <= i < p ==> #[trigger] r[i] == s[i]);
        assert(forall|i: int| p <= i < r.len() ==> #[trigger] r[i] == s[i + 1]);
        assert forall|i: int, j: int| 0 <= i < j < r.len() implies lex_lt(
            #[trigger] r[i].0,
            #[trigger] r[j].0,
        ) by {}
        // the key is gone
        lemma_assoc_lb_unique(r, k, p);
        if p < r.len() {
            assert(r[p].0 == s[p + 1].0);
            assert(lex_lt(s[p].0, s[p + 1].0));
            if r[p].0 == k {
                lemma_lex_asym(s[p].0, k);
                assert(false);
            }
        }
    } else {
        lemma_assoc_lb_unique(r, k, p);
    }
}

/// The exact pair appears somewhere in the sequence.
pub open spec fn assoc_contains_pair<V>(s: Seq<(Seq<u8>, V)>, e: (Seq<u8>, V)) -> bool {
    exists|j: int| 0 <= j < s.len() && s[j] == e
}

/// In a sorted sequence, an entry is found exactly at the lower bound of its
/// key: membership of a pair fixes the lookup result.
pub proof fn lemma_assoc_mem_find<V>(s: Seq<(Seq<u8>, V)>, j: int)
    requires
        assoc_sorted(s),
        0 <= j < s.len(),
    ensures
        assoc_lb(s, s[j].0) == j,
        assoc_has(s, s[j].0),
        assoc_find(s, s[j].0) == Option::Some(s[j].1),
{
    let k = s[j].0;
    assert forall|i: int| 0 <= i < j implies lex_lt(#[trigger] s[i].0, k) by {}
    assert forall|i: int| j <= i < s.len() implies !lex_lt(#[trigger] s[i].0, k) by {
        if i == j {
            crate::order::lemma_lex_irrefl(k);
        } else {
            if lex_lt(s[i].0, k) {
                lemma_lex_asym(s[i].0, k);
            }
        }
    }
    lemma_assoc_lb_unique(s, k, j);
}

/// An upsert under a different key keeps a pair.
pub proof fn lemma_assoc_upsert_keeps<V>(s: Seq<(Seq<u8>, V)>, k: Seq<u8>, v: V, e: (Seq<u8>, V))
    requires
        assoc_sorted(s),
        assoc_contains_pair(s, e),
        e.0 != k,
    ensures
        assoc_contains_pair(assoc_upsert(s, k, v), e),
{
    lemma_assoc_upsert_props(s, k, v);
    lemma_assoc_lb_props(s, k);
    let p = assoc_lb(s, k);
    let j = choose|j: int| 0 <= j < s.len() && s[j] == e;
    let r = assoc_upsert(s, k, v);
    if assoc_has(s, k) {
        assert(s[p].0 == k);
        assert(j != p);
        assert(r[j] == e);
    } else {
        if j < p {
            assert(r[j] == e);
        } else {
            assert(r[j + 1] == e);
        }
    }
}

/// A removal under a different key keeps a pair.
pub proof fn lemma_assoc_remove_keeps<V>(s: Seq<(Seq<u8>, V)>, k: Seq<u8>, e: (Seq<u8>, V))
    requires
        assoc_sorted(s),
        assoc_contains_pair(s, e),
        e.0 != k,
    ensures
        assoc_contains_pair(assoc_remove(s, k), e),
{
    lemma_assoc_remove_props(s, k);
    lemma_assoc_lb_props(s, k);
    let p = assoc_lb(s, k);
    let j = choose|j: int| 0 <= j < s.len() && s[j] == e;
    let r = assoc_remove(s, k);
    if assoc_has(s, k) {
        assert(s[p].0 == k);
        assert(j != p);
        if j < p {
            assert(r[j] == e);
        } else {
            assert(r[j - 1] == e);
        }
    }
}

/// Upserting a pair the sequence already holds changes nothing.
pub proof fn lemma_assoc_upsert_same<V>(s: Seq<(Seq<u8>, V)>, j: int)
    requires
        assoc_sorted(s),
        0 <= j < s.len(),
    ensures
        assoc_upsert(s, s[j].0, s[j].1) == s,
{
    lemma_assoc_mem_find(s, j);
    lemma_assoc_upsert_props(s, s[j].0, s[j].1);
    assert(assoc_upsert(s, s[j].0, s[j].1) =~= s);
}

/// In a sorted sequence, a key is present exactly when some entry holds it.
pub proof fn lemma_assoc_has_index<V>(s: Seq<(Seq<u8>, V)>, k: Seq<u8>)
    requires
        assoc_sorted(s),
    ensures
        assoc_has(s, k) <==> exists|j: int| 0 <= j < s.len() && (#[trigger] s[j]).0 == k,
{
    lemma_assoc_lb_props(s, k);
    if assoc_has(s, k) {
        let p = assoc_lb(s, k);
        assert(s[p].0 == k);
    }
    if exists|j: int| 0 <= j < s.len() && (#[trigger] s[j]).0 == k {
        let j = choose|j: int| 0 <= j < s.len() && (#[trigger] s[j]).0 == k;
        lemma_assoc_mem_find(s, j);
    }
}

/// Which keys an upsert leaves present: the new one, and every old one.
pub proof fn lemma_assoc_upsert_has<V>(s: Seq<(Seq<u8>, V)>, k: Seq<u8>, v: V, k2: Seq<u8>)
    requires
        assoc_sorted(s),
    ensures
        assoc_has(assoc_upsert(s, k, v), k2) == (k2 == k || assoc_has(s, k2)),
{
    lemma_assoc_upsert_props(s, k, v);
    lemma_assoc_lb_props(s, k);
    let r = assoc_upsert(s, k, v);
    let p = assoc_lb(s, k);
    lemma_assoc_has_index(s, k2);
    lemma_assoc_has_index(r, k2);
    if k2 == k {
        assert(r[p].0 == k2);
    } else {
        if assoc_has(s, k2) {
            let j = choose|j: int| 0 <= j < s.len() && (#[trigger] s[j]).0 == k2;
            if assoc_has(s, k) {
                if j == p {
                    assert(s[p].0 == k);
                } else {
                    assert(r[j].0 == k2);
                }
            } else {
                if j < p {
                    assert(r[j].0 == k2);
                } else {
                    assert(r[j + 1].0 == k2);
                }
            }
        }
        if assoc_has(r, k2) {
            let j = choose|j: int| 0 <= j < r.len() && (#[trigger] r[j]).0 == k2;
            assert(j != p);
            if assoc_has(s, k) {
                assert(s[j].0 == k2);
            } else {
                if j < p {
                    assert(s[j].0 == k2);
                } else {
                    assert(s[j - 1].0 == k2);
                }
            }
        }
    }
}

/// Which keys a removal leaves present: every old one but the removed.
pub proof fn lemma_assoc_remove_has<V>(s: Seq<(Seq<u8>, V)>, k: Seq<u8>, k2: Seq<u8>)
    requires
        assoc_sorted(s),
    ensures
        assoc_has(assoc_remove(s, k), k2) == (k2 != k && assoc_has(s, k2)),
{
    lemma_assoc_remove_props(s, k);
    lemma_assoc_lb_props(s, k);
    let r = assoc_remove(s, k);
    let p = assoc_lb(s, k);
    lemma_assoc_has_index(s, k2);
    lemma_assoc_has_index(r, k2);
    if k2 == k {
        if assoc_has(r, k2) {
        }
    } else {
        if assoc_has(s, k2) {
            let j = choose|j: int| 0 <= j < s.len() && (#[trigger] s[j]).0 == k2;
            if assoc_has(s, k) {
                assert(j != p);
                if j < p {
                    assert(r[j].0 == k2);
                } else {
                    assert(r[j - 1].0 == k2);
                }
            } else {
                assert(r[j].0 == k2);
            }
        }
        if assoc_has(r, k2) {
            let j = choose|j: int| 0 <= j < r.len() && (#[trigger] r[j]).0 == k2;
            if assoc_has(s, k) {
                if j < p {
                    assert(s[j].0 == k2);
                } else {
                    assert(s[j + 1].0 == k2);
                }
            } else {
                assert(s[j].0 == k2);
            }
        }
    }
}

/// Scan a vector with strictly ascending keys for the position of a key:
/// the number of entries sorting before it, and whether the key is there.
/// The contract speaks of the keys alone, so a caller may relate it to any
/// association view it keeps of the vector.
pub fn assoc_pos<V>(s: &Vec<(Vec<u8>, V)>, k: &Vec<u8>) -> (res: (usize, bool))
    requires
        forall|i: int, j: int|
            0 <= i < j < s@.len() ==> lex_lt(#[trigger] s@[i].0@, #[trigger] s@[j].0@),
    ensures
        res.0 <= s@.len(),
        forall|j: int| 0 <= j < res.0 ==> lex_lt(#[trigger] s@[j].0@, k@),
        forall|j: int| res.0 <= j < s@.len() ==> !lex_lt(#[trigger] s@[j].0@, k@),
        res.1 == (res.0 < s@.len() && s@[res.0 as int].0@ == k@),
{
    let mut i: usize = 0;
    loop
        invariant
            i <= s@.len(),
            forall|p: int, j: int|
                0 <= p < j < s@.len() ==> lex_lt(#[trigger] s@[p].0@, #[trigger] s@[j].0@),
            forall|j: int| 0 <= j < i ==> lex_lt(#[trigger] s@[j].0@, k@),
        decreases s@.len() - i,
    {
        if i == s.len() {
            return (i, false);
        }
        let c = cmp_bytes(&s[i].0, k);
        match c {
            Cmp::Less => {
                i = i + 1;
            },
            Cmp::Equal => {
                proof {
                    assert forall|j: int| i <= j < s@.len() implies !lex_lt(
                        #[trigger] s@[j].0@,
                        k@,
                    ) by {
                        if j > i {
                            assert(lex_lt(s@[i as int].0@, s@[j].0@));
                            if lex_lt(s@[j].0@, k@) {
                                lemma_lex_asym(s@[j].0@, k@);
                            }
                        } else {
                            crate::order::lemma_lex_irrefl(k@);
                        }
                    }
                }
                return (i, true);
            },
            Cmp::Greater => {
                proof {
                    assert forall|j: int| i <= j < s@.len() implies !lex_lt(
                        #[trigger] s@[j].0@,
                        k@,
                    ) by {
                        if j > i {
                            if lex_lt(s@[j].0@, k@) {
                                lemma_lex_trans(k@, s@[i as int].0@, s@[j].0@);
                                lemma_lex_asym(s@[j].0@, k@);
                            }
                        } else {
                            lemma_lex_asym(s@[i as int].0@, k@);
                        }
                    }
                }
                return (i, false);
            },
        }
    }
}

} // verus!
