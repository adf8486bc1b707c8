//! Unsigned lexicographic order on byte strings, and bitwise inversion.
//!
//! The storage layer orders keys by `lex_lt`; the row codec guarantees that
//! this order matches the logical row order.

use vstd::prelude::*;

verus! {

/// Three-way comparison result.
#[derive(Clone, Copy, PartialEq, Eq, Structural, Debug)]
pub enum Cmp {
    Less,
    Equal,
    Greater,
}

/// Strict unsigned lexicographic order: a proper prefix sorts first.
pub open spec fn lex_lt(a: Seq<u8>, b: Seq<u8>) -> bool
    decreases a.len(),
{
    if b.len() == 0 {
        false
    } else if a.len() == 0 {
        true
    } else if a[0] < b[0] {
        true
    } else if a[0] > b[0] {
        false
    } else {
        lex_lt(a.skip(1), b.skip(1))
    }
}

/// Each byte replaced by its complement; reverses the order of equal-length strings.
pub open spec fn inv_bytes(s: Seq<u8>) -> Seq<u8> {
    s.map(|i: int, b: u8| (255 - b) as u8)
}

/// Strings with equal heads and equal tails are equal.
pub proof fn lemma_eq_head_tail(a: Seq<u8>, b: Seq<u8>)
    requires
        a.len() > 0,
        b.len() > 0,
        a[0] == b[0],
        a.skip(1) == b.skip(1),
    ensures
        a == b,
{
    assert(a.skip(1).len() == a.len() - 1);
    assert(b.skip(1).len() == b.len() - 1);
    assert forall|j: int| 0 <= j < a.len() implies a[j] == b[j] by {
        if j >= 1 {
            assert(a.skip(1)[j - 1] == a[j]);
            assert(b.skip(1)[j - 1] == b[j]);
        }
    }
    assert(a =~= b);
}

pub proof fn lemma_lex_irrefl(a: Seq<u8>)
    ensures
        !lex_lt(a, a),
    decreases a.len(),
{
    if a.len() > 0 {
        lemma_lex_irrefl(a.skip(1));
    }
}

pub proof fn lemma_lex_asym(a: Seq<u8>, b: Seq<u8>)
    ensures
        !(lex_lt(a, b) && lex_lt(b, a)),
    decreases a.len(),
{
    if a.len() > 0 && b.len() > 0 && a[0] == b[0] {
        lemma_lex_asym(a.skip(1), b.skip(1));
    }
}

pub proof fn lemma_lex_total(a: Seq<u8>, b: Seq<u8>)
    ensures
        lex_lt(a, b) || lex_lt(b, a) || a == b,
    decreases a.len(),
{
    if a.len() == 0 && b.len() == 0 {
        assert(a =~= b);
    } else if a.len() > 0 && b.len() > 0 && a[0] == b[0] {
        lemma_lex_total(a.skip(1), b.skip(1));
        if a.skip(1) == b.skip(1) {
            lemma_eq_head_tail(a, b);
        }
    }
}

pub proof fn lemma_lex_trans(a: Seq<u8>, b: Seq<u8>, c: Seq<u8>)
    requires
        lex_lt(a, b),
        lex_lt(b, c),
    ensures
        lex_lt(a, c),
    decreases a.len(),
{
    if a.len() > 0 && b.len() > 0 && c.len() > 0 {
        if a[0] == b[0] && b[0] == c[0] {
            lemma_lex_trans(a.skip(1), b.skip(1), c.skip(1));
        }
    }
}

/// Comparing two strings with equal-length prefixes reduces to comparing the
/// prefixes and then, on equal prefixes, the suffixes.
pub proof fn lemma_lex_concat(a: Seq<u8>, b: Seq<u8>, s: Seq<u8>, t: Seq<u8>)
    requires
        a.len() == b.len(),
    ensures
        lex_lt(a + s, b + t) <==> (lex_lt(a, b) || (a == b && lex_lt(s, t))),
    decreases a.len(),
{
    if a.len() == 0 {
        assert(a + s =~= s);
        assert(b + t =~= t);
        assert(a =~= b);
    } else {
        assert((a + s)[0] == a[0]);
        assert((b + t)[0] == b[0]);
        if a[0] == b[0] {
            assert((a + s).skip(1) =~= a.skip(1) + s);
            assert((b + t).skip(1) =~= b.skip(1) + t);
            lemma_lex_concat(a.skip(1), b.skip(1), s, t);
            assert((a == b) <==> (a[0] == b[0] && a.skip(1) == b.skip(1))) by {
                if a[0] == b[0] && a.skip(1) == b.skip(1) {
                    lemma_eq_head_tail(a, b);
                }
                if a == b {
                    assert(a.skip(1) =~= b.skip(1));
                }
            }
        }
    }
}

pub proof fn lemma_inv_involutive(a: Seq<u8>)
    ensures
        inv_bytes(inv_bytes(a)) == a,
{
    assert(inv_bytes(inv_bytes(a)) =~= a);
}

pub proof fn lemma_inv_concat(a: Seq<u8>, b: Seq<u8>)
    ensures
        inv_bytes(a + b) == inv_bytes(a) + inv_bytes(b),
{
    assert(inv_bytes(a + b) =~= inv_bytes(a) + inv_bytes(b));
}

/// On equal-length strings, inversion exactly reverses the order.
pub proof fn lemma_lex_inv_eqlen(a: Seq<u8>, b: Seq<u8>)
    requires
        a.len() == b.len(),
    ensures
        lex_lt(inv_bytes(a), inv_bytes(b)) <==> lex_lt(b, a),
    decreases a.len(),
{
    if a.len() > 0 {
        assert(inv_bytes(a)[0] == 255 - a[0]);
        assert(inv_bytes(b)[0] == 255 - b[0]);
        assert(inv_bytes(a).skip(1) =~= inv_bytes(a.skip(1)));
        assert(inv_bytes(b).skip(1) =~= inv_bytes(b.skip(1)));
        lemma_lex_inv_eqlen(a.skip(1), b.skip(1));
    }
}

pub proof fn lemma_inv_injective(a: Seq<u8>, b: Seq<u8>)
    requires
        inv_bytes(a) == inv_bytes(b),
    ensures
        a == b,
{
    lemma_inv_involutive(a);
    lemma_inv_involutive(b);
}

/// Equal-length-prefix comparison where both prefixes appear inverted.
pub proof fn lemma_lex_concat_inv(a: Seq<u8>, b: Seq<u8>, s: Seq<u8>, t: Seq<u8>)
    requires
        a.len() == b.len(),
    ensures
        lex_lt(inv_bytes(a) + s, inv_bytes(b) + t) <==> (lex_lt(b, a) || (a == b && lex_lt(
            s,
            t,
        ))),
{
    lemma_lex_concat(inv_bytes(a), inv_bytes(b), s, t);
    lemma_lex_inv_eqlen(a, b);
    if inv_bytes(a) == inv_bytes(b) {
        lemma_inv_injective(a, b);
    }
}

/// Advancing past one equal byte leaves both the order and the equality of
/// the remaining suffixes unchanged.
proof fn lemma_lex_skip_step(a: Seq<u8>, b: Seq<u8>, i: int)
    requires
        0 <= i < a.len(),
        0 <= i < b.len(),
        a[i] == b[i],
    ensures
        lex_lt(a.skip(i), b.skip(i)) == lex_lt(a.skip(i + 1), b.skip(i + 1)),
        lex_lt(b.skip(i), a.skip(i)) == lex_lt(b.skip(i + 1), a.skip(i + 1)),
        (a.skip(i) == b.skip(i)) == (a.skip(i + 1) == b.skip(i + 1)),
{
    assert(a.skip(i)[0] == a[i]);
    assert(b.skip(i)[0] == b[i]);
    assert(a.skip(i).skip(1) =~= a.skip(i + 1));
    assert(b.skip(i).skip(1) =~= b.skip(i + 1));
    if a.skip(i) == b.skip(i) {
        assert(a.skip(i).skip(1) == b.skip(i).skip(1));
    }
    if a.skip(i + 1) == b.skip(i + 1) {
        lemma_eq_head_tail(a.skip(i), b.skip(i));
    }
}

/// Exact three-way byte-string comparison.
pub fn cmp_bytes(a: &Vec<u8>, b: &Vec<u8>) -> (c: Cmp)
    ensures
        (c == Cmp::Less) == lex_lt(a@, b@),
        (c == Cmp::Greater) == lex_lt(b@, a@),
        (c == Cmp::Equal) == (a@ == b@),
{
    proof {
        assert(a@.skip(0) =~= a@);
        assert(b@.skip(0) =~= b@);
    }
    let mut i: usize = 0;
    loop
        invariant
            i <= a.len(),
            i <= b.len(),
            lex_lt(a@, b@) == lex_lt(a@.skip(i as int), b@.skip(i as int)),
            lex_lt(b@, a@) == lex_lt(b@.skip(i as int), a@.skip(i as int)),
            (a@ == b@) == (a@.skip(i as int) == b@.skip(i as int)),
        decreases a.len() - i,
    {
        if i == a.len() || i == b.len() {
            if a.len() == b.len() {
                proof {
                    assert(a@.skip(i as int) =~= b@.skip(i as int));
                }
                return Cmp::Equal;
            } else if a.len() < b.len() {
                proof {
                    if a@.skip(i as int) == b@.skip(i as int) {
                        assert(a@.skip(i as int).len() == b@.skip(i as int).len());
                    }
                }
                return Cmp::Less;
            } else {
                proof {
                    if a@.skip(i as int) == b@.skip(i as int) {
                        assert(a@.skip(i as int).len() == b@.skip(i as int).len());
                    }
                }
                return Cmp::Greater;
            }
        }
        let x = a[i];
        let y = b[i];
        proof {
            assert(a@.skip(i as int)[0] == a@[i as int]);
            assert(b@.skip(i as int)[0] == b@[i as int]);
        }
        if x < y {
            proof {
                if a@.skip(i as int) == b@.skip(i as int) {
                    assert(a@.skip(i as int)[0] == b@.skip(i as int)[0]);
                }
            }
            return Cmp::Less;
        } else if x > y {
            proof {
                if a@.skip(i as int) == b@.skip(i as int) {
                    assert(a@.skip(i as int)[0] == b@.skip(i as int)[0]);
                }
            }
            return Cmp::Greater;
        }
        proof {
            lemma_lex_skip_step(a@, b@, i as int);
        }
        i = i + 1;
    }
}

} // verus!
