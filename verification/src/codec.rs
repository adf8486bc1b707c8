//! Order-preserving row codec.
//!
//! `encode_forward` maps a row, under its direction vector, to a byte string
//! whose unsigned lexicographic order equals the logical row order;
//! `encode_reversed` is its bitwise inversion and reverses that order.
//! `decode` inverts the chosen encoding and rejects malformed input.
//!
//! Layout per column: one marker byte (0 for null, 1 for a value), then for
//! integers eight big-endian bytes of the sign-shifted value, and for byte
//! strings a (1, byte) pair per content byte closed by a 0 terminator.
//! Descending columns appear with every byte complemented.

use vstd::prelude::*;

use vstd::arithmetic::div_mod::{
    lemma_div_denominator, lemma_div_is_ordered, lemma_fundamental_div_mod,
    lemma_fundamental_div_mod_converse_div, lemma_fundamental_div_mod_converse_mod,
};

use crate::order::{
    inv_bytes, lemma_eq_head_tail, lemma_inv_concat, lemma_inv_involutive, lemma_lex_asym,
    lemma_lex_concat, lemma_lex_concat_inv, lemma_lex_irrefl, lex_lt,
};
use crate::row::{
    datum_compat, datum_lt, datum_lt_nat, datum_wf, row_lt, row_wf, rows_compat, DataType, Datum,
    DatumS, Direction, Row,
};

verus! {

/// Powers of 256.
pub open spec fn pow256(n: nat) -> nat
    decreases n,
{
    if n == 0 {
        1
    } else {
        256 * pow256((n - 1) as nat)
    }
}

/// Big-endian base-256 digits of `k`, `n` bytes wide.
pub open spec fn enc_u64_be(k: nat, n: nat) -> Seq<u8>
    decreases n,
{
    if n == 0 {
        seq![]
    } else {
        enc_u64_be(k / 256, (n - 1) as nat).push((k % 256) as u8)
    }
}

/// The sign-shifted key of a 64-bit integer: order-preserving into 0..2^64.
pub open spec fn int_key(x: int) -> nat {
    (x + 0x8000000000000000) as nat
}

/// Escaped string encoding: a (1, byte) pair per content byte, 0 terminator.
pub open spec fn enc_str(s: Seq<u8>) -> Seq<u8>
    decreases s.len(),
{
    if s.len() == 0 {
        seq![0u8]
    } else {
        seq![1u8, s[0]] + enc_str(s.skip(1))
    }
}

/// Ascending encoding of one datum.
pub open spec fn enc_datum(d: DatumS) -> Seq<u8> {
    match d {
        DatumS::Null => seq![0u8],
        DatumS::Int(x) => seq![1u8] + enc_u64_be(int_key(x), 8),
        DatumS::Str(s) => seq![1u8] + enc_str(s),
    }
}

/// Encoding of one column: complemented when the column is descending.
pub open spec fn enc_col(dir: Direction, d: DatumS) -> Seq<u8> {
    match dir {
        Direction::Ascending => enc_datum(d),
        Direction::Descending => inv_bytes(enc_datum(d)),
    }
}

/// Forward encoding of a row: column encodings in order.
pub open spec fn enc_row(dirs: Seq<Direction>, r: Seq<DatumS>) -> Seq<u8>
    decreases r.len(),
{
    if r.len() == 0 || dirs.len() == 0 {
        seq![]
    } else {
        enc_col(dirs[0], r[0]) + enc_row(dirs.skip(1), r.skip(1))
    }
}

/// Reversed encoding: the forward encoding with every byte complemented.
pub open spec fn enc_row_rev(dirs: Seq<Direction>, r: Seq<DatumS>) -> Seq<u8> {
    inv_bytes(enc_row(dirs, r))
}

/// An integer datum lies within the 64-bit machine bounds.
pub open spec fn datum_ok(d: DatumS) -> bool {
    match d {
        DatumS::Int(x) => i64::MIN <= x <= i64::MAX,
        _ => true,
    }
}

pub open spec fn rows_ok(r: Seq<DatumS>) -> bool {
    forall|i: int| 0 <= i < r.len() ==> datum_ok(#[trigger] r[i])
}

/// A schema-conforming row has its integers within the machine bounds.
pub proof fn lemma_row_wf_ok(schema: Seq<DataType>, r: Seq<DatumS>)
    requires
        row_wf(schema, r),
    ensures
        rows_ok(r),
{
    assert forall|i: int| 0 <= i < r.len() implies datum_ok(#[trigger] r[i]) by {
        assert(datum_wf(schema[i], r[i]));
    }
}

proof fn lemma_pow256_values()
    ensures
        pow256(0) == 1,
        pow256(1) == 256,
        pow256(2) == 65536,
        pow256(3) == 16777216,
        pow256(4) == 4294967296,
        pow256(5) == 1099511627776,
        pow256(6) == 281474976710656,
        pow256(7) == 72057594037927936,
        pow256(8) == 18446744073709551616,
{
    assert(pow256(0) == 1);
    assert(pow256(1) == 256);
    assert(pow256(2) == 65536);
    assert(pow256(3) == 16777216);
    assert(pow256(4) == 4294967296);
    assert(pow256(5) == 1099511627776);
    assert(pow256(6) == 281474976710656);
    assert(pow256(7) == 72057594037927936);
    assert(pow256(8) == 18446744073709551616);
}

proof fn lemma_pow256_pos(n: nat)
    ensures
        pow256(n) >= 1,
    decreases n,
{
    if n > 0 {
        lemma_pow256_pos((n - 1) as nat);
    }
}

proof fn lemma_lex_single(a: u8, b: u8)
    ensures
        lex_lt(seq![a], seq![b]) == (a < b),
{
    let s1 = seq![a];
    let s2 = seq![b];
    if a < b {
        assert(lex_lt(s1, s2));
    } else if a > b {
        assert(!lex_lt(s1, s2));
    } else {
        assert(s1 =~= s2);
        lemma_lex_irrefl(s1);
    }
}

proof fn lemma_lex_pair(m: u8, a: u8, b: u8)
    ensures
        lex_lt(seq![m, a], seq![m, b]) == (a < b),
        (seq![m, a] == seq![m, b]) == (a == b),
{
    let s1 = seq![m, a];
    let s2 = seq![m, b];
    assert(s1.skip(1) =~= seq![a]);
    assert(s2.skip(1) =~= seq![b]);
    lemma_lex_single(a, b);
    assert(lex_lt(s1, s2) == lex_lt(seq![a], seq![b]));
    if a == b {
        assert(s1 =~= s2);
    }
    if s1 == s2 {
        assert(s1[1] == s2[1]);
    }
}

proof fn lemma_be_index(k: nat, n: nat)
    ensures
        enc_u64_be(k, n).len() == n,
        forall|j: int|
            0 <= j < n ==> enc_u64_be(k, n)[j] == ((k / pow256((n - 1 - j) as nat)) % 256) as u8,
    decreases n,
{
    if n > 0 {
        lemma_be_index(k / 256, (n - 1) as nat);
        assert forall|j: int| 0 <= j < n implies enc_u64_be(k, n)[j] == ((k / pow256(
            (n - 1 - j) as nat,
        )) % 256) as u8 by {
            if j < n - 1 {
                assert(enc_u64_be(k, n)[j] == enc_u64_be(k / 256, (n - 1) as nat)[j]);
                let m = (n - 2 - j) as nat;
                lemma_pow256_pos(m);
                lemma_div_denominator(k as int, 256, pow256(m) as int);
                assert(256 * pow256(m) == pow256((m + 1) as nat));
            } else {
                assert(enc_u64_be(k, n)[j] == (k % 256) as u8);
                assert(pow256((n - 1 - j) as nat) == 1);
                assert(k as int / 1 == k as int);
            }
        }
    }
}

proof fn lemma_be_order(k1: nat, k2: nat, n: nat)
    requires
        k1 < k2,
        k2 < pow256(n),
    ensures
        lex_lt(enc_u64_be(k1, n), enc_u64_be(k2, n)),
    decreases n,
{
    if n == 0 {
        assert(false);
    } else {
        let q1 = k1 / 256;
        let q2 = k2 / 256;
        let r1 = k1 % 256;
        let r2 = k2 % 256;
        lemma_div_is_ordered(k1 as int, k2 as int, 256);
        lemma_fundamental_div_mod(k1 as int, 256);
        lemma_fundamental_div_mod(k2 as int, 256);
        let p = pow256((n - 1) as nat);
        assert(pow256(n) == 256 * p);
        assert(q2 < p) by {
            if q2 >= p {
                assert(256 * (k2 as int / 256) >= 256 * (p as int)) by (nonlinear_arith)
                    requires
                        k2 as int / 256 >= p as int,
                ;
            }
        }
        lemma_be_index(k1, n);
        lemma_be_index(k2, n);
        assert(enc_u64_be(k1, n) =~= enc_u64_be(q1, (n - 1) as nat) + seq![r1 as u8]);
        assert(enc_u64_be(k2, n) =~= enc_u64_be(q2, (n - 1) as nat) + seq![r2 as u8]);
        lemma_be_index(q1, (n - 1) as nat);
        lemma_be_index(q2, (n - 1) as nat);
        lemma_lex_concat(
            enc_u64_be(q1, (n - 1) as nat),
            enc_u64_be(q2, (n - 1) as nat),
            seq![r1 as u8],
            seq![r2 as u8],
        );
        if q1 < q2 {
            lemma_be_order(q1, q2, (n - 1) as nat);
        } else {
            assert(q1 == q2);
            assert(r1 < r2);
            assert(lex_lt(seq![r1 as u8], seq![r2 as u8]));
        }
    }
}

proof fn lemma_be_bound(k: nat, n: nat)
    requires
        k < pow256(n),
    ensures
        forall|k2: nat| k2 < pow256(n) && k != k2 ==> enc_u64_be(k, n) != enc_u64_be(k2, n),
{
    assert forall|k2: nat| k2 < pow256(n) && k != k2 implies enc_u64_be(k, n) != enc_u64_be(
        k2,
        n,
    ) by {
        if k < k2 {
            lemma_be_order(k, k2, n);
            lemma_lex_irrefl(enc_u64_be(k2, n));
        } else {
            lemma_be_order(k2, k, n);
            lemma_lex_irrefl(enc_u64_be(k, n));
        }
    }
}

/// The whole string comparison is decided within the two string encodings,
/// whatever follows them.
proof fn lemma_enc_str_decisive(x: Seq<u8>, y: Seq<u8>, s: Seq<u8>, t: Seq<u8>)
    ensures
        lex_lt(enc_str(x) + s, enc_str(y) + t) <==> (lex_lt(x, y) || (x == y && lex_lt(s, t))),
    decreases x.len(),
{
    if x.len() == 0 && y.len() == 0 {
        assert(enc_str(x) == seq![0u8]);
        lemma_lex_concat(seq![0u8], seq![0u8], s, t);
        lemma_lex_irrefl(seq![0u8]);
        assert(x =~= y);
        assert(!lex_lt(x, y));
    } else if x.len() == 0 {
        let a = enc_str(x) + s;
        let b = enc_str(y) + t;
        assert(a[0] == 0u8);
        assert(enc_str(y) == seq![1u8, y[0]] + enc_str(y.skip(1)));
        assert(b[0] == 1u8);
        assert(b.len() > 0 && a.len() > 0);
        assert(lex_lt(a, b));
        assert(lex_lt(x, y));
    } else if y.len() == 0 {
        let a = enc_str(x) + s;
        let b = enc_str(y) + t;
        assert(enc_str(x) == seq![1u8, x[0]] + enc_str(x.skip(1)));
        assert(a[0] == 1u8);
        assert(b[0] == 0u8);
        assert(!lex_lt(a, b));
        assert(!lex_lt(x, y));
        assert(x != y);
    } else {
        let h = seq![1u8, x[0]];
        let g = seq![1u8, y[0]];
        assert(enc_str(x) + s =~= h + (enc_str(x.skip(1)) + s));
        assert(enc_str(y) + t =~= g + (enc_str(y.skip(1)) + t));
        lemma_lex_concat(h, g, enc_str(x.skip(1)) + s, enc_str(y.skip(1)) + t);
        lemma_enc_str_decisive(x.skip(1), y.skip(1), s, t);
        // two-byte comparisons reduce to the data byte
        lemma_lex_pair(1u8, x[0], y[0]);
        // string order unfolds on the head byte
        assert(lex_lt(x, y) == (x[0] < y[0] || (x[0] == y[0] && lex_lt(x.skip(1), y.skip(1)))));
        assert((x == y) == (x[0] == y[0] && x.skip(1) == y.skip(1))) by {
            if x[0] == y[0] && x.skip(1) == y.skip(1) {
                lemma_eq_head_tail(x, y);
            }
            if x == y {
                assert(x.skip(1) =~= y.skip(1));
            }
        }
    }
}

/// As `lemma_enc_str_decisive`, with both encodings complemented: the
/// comparison comes out reversed.
proof fn lemma_enc_str_decisive_inv(x: Seq<u8>, y: Seq<u8>, s: Seq<u8>, t: Seq<u8>)
    ensures
        lex_lt(inv_bytes(enc_str(x)) + s, inv_bytes(enc_str(y)) + t) <==> (lex_lt(y, x) || (x == y
            && lex_lt(s, t))),
    decreases x.len(),
{
    if x.len() == 0 && y.len() == 0 {
        assert(inv_bytes(enc_str(x)) =~= seq![255u8]);
        assert(inv_bytes(enc_str(y)) =~= seq![255u8]);
        lemma_lex_concat(seq![255u8], seq![255u8], s, t);
        lemma_lex_irrefl(seq![255u8]);
        assert(x =~= y);
        assert(!lex_lt(x, y));
    } else if x.len() == 0 {
        let a = inv_bytes(enc_str(x)) + s;
        let b = inv_bytes(enc_str(y)) + t;
        assert(inv_bytes(enc_str(x)) =~= seq![255u8]);
        assert(a[0] == 255u8);
        assert(b[0] == inv_bytes(enc_str(y))[0]);
        assert(enc_str(y)[0] == (seq![1u8, y[0]] + enc_str(y.skip(1)))[0]);
        assert(b[0] == 254u8);
        assert(!lex_lt(a, b));
        assert(!lex_lt(y, x));
        assert(x != y);
    } else if y.len() == 0 {
        let a = inv_bytes(enc_str(x)) + s;
        let b = inv_bytes(enc_str(y)) + t;
        assert(enc_str(x)[0] == (seq![1u8, x[0]] + enc_str(x.skip(1)))[0]);
        assert(a[0] == inv_bytes(enc_str(x))[0]);
        assert(a[0] == 254u8);
        assert(inv_bytes(enc_str(y)) =~= seq![255u8]);
        assert(b[0] == 255u8);
        assert(lex_lt(a, b));
        assert(lex_lt(y, x));
    } else {
        let h = seq![254u8, (255 - x[0]) as u8];
        let g = seq![254u8, (255 - y[0]) as u8];
        assert(inv_bytes(enc_str(x)) + s =~= h + (inv_bytes(enc_str(x.skip(1))) + s)) by {
            assert(enc_str(x) == seq![1u8, x[0]] + enc_str(x.skip(1)));
        }
        assert(inv_bytes(enc_str(y)) + t =~= g + (inv_bytes(enc_str(y.skip(1))) + t)) by {
            assert(enc_str(y) == seq![1u8, y[0]] + enc_str(y.skip(1)));
        }
        lemma_lex_concat(h, g, inv_bytes(enc_str(x.skip(1))) + s, inv_bytes(enc_str(y.skip(1))) + t);
        lemma_enc_str_decisive_inv(x.skip(1), y.skip(1), s, t);
        lemma_lex_pair(254u8, (255 - x[0]) as u8, (255 - y[0]) as u8);
        assert(lex_lt(h, g) == (y[0] < x[0]));
        assert((h == g) == (x[0] == y[0]));
        assert(lex_lt(y, x) == (y[0] < x[0] || (y[0] == x[0] && lex_lt(y.skip(1), x.skip(1)))));
        assert((x == y) == (x[0] == y[0] && x.skip(1) == y.skip(1))) by {
            if x[0] == y[0] && x.skip(1) == y.skip(1) {
                lemma_eq_head_tail(x, y);
            }
            if x == y {
                assert(x.skip(1) =~= y.skip(1));
            }
        }
    }
}

/// The whole comparison is decided within the two datum encodings.
proof fn lemma_enc_datum_decisive(a: DatumS, b: DatumS, s: Seq<u8>, t: Seq<u8>)
    requires
        datum_compat(a, b),
        datum_ok(a),
        datum_ok(b),
    ensures
        lex_lt(enc_datum(a) + s, enc_datum(b) + t) <==> (datum_lt_nat(a, b) || (a == b && lex_lt(
            s,
            t,
        ))),
{
    match (a, b) {
        (DatumS::Null, DatumS::Null) => {
            lemma_lex_concat(seq![0u8], seq![0u8], s, t);
            lemma_lex_irrefl(seq![0u8]);
        },
        (DatumS::Null, _) => {
            let u = enc_datum(a) + s;
            let v = enc_datum(b) + t;
            assert(u[0] == 0u8);
            assert(v[0] == 1u8);
            assert(lex_lt(u, v));
        },
        (_, DatumS::Null) => {
            let u = enc_datum(a) + s;
            let v = enc_datum(b) + t;
            assert(u[0] == 1u8);
            assert(v[0] == 0u8);
            assert(!lex_lt(u, v));
        },
        (DatumS::Int(x), DatumS::Int(y)) => {
            let k1 = int_key(x);
            let k2 = int_key(y);
            lemma_pow256_values();
            lemma_be_index(k1, 8);
            lemma_be_index(k2, 8);
            let h = seq![1u8] + enc_u64_be(k1, 8);
            let g = seq![1u8] + enc_u64_be(k2, 8);
            assert(enc_datum(a) + s =~= h + s);
            assert(enc_datum(b) + t =~= g + t);
            lemma_lex_concat(h, g, s, t);
            assert(h.skip(1) =~= enc_u64_be(k1, 8));
            assert(g.skip(1) =~= enc_u64_be(k2, 8));
            if k1 < k2 {
                lemma_be_order(k1, k2, 8);
                lemma_lex_asym(enc_u64_be(k1, 8), enc_u64_be(k2, 8));
                lemma_lex_irrefl(enc_u64_be(k1, 8));
                assert(lex_lt(h, g));
                assert(h != g);
            } else if k2 < k1 {
                lemma_be_order(k2, k1, 8);
                lemma_lex_asym(enc_u64_be(k2, 8), enc_u64_be(k1, 8));
                lemma_lex_irrefl(enc_u64_be(k2, 8));
                assert(!lex_lt(h, g));
                assert(h != g);
            } else {
                assert(x == y);
                assert(h =~= g);
                lemma_lex_irrefl(enc_u64_be(k1, 8));
                assert(!lex_lt(h, g));
            }
            assert((h == g) ==> k1 == k2) by {
                if h == g {
                    assert(h.skip(1) == g.skip(1));
                    if k1 != k2 {
                        lemma_be_bound(k1, 8);
                    }
                }
            }
        },
        (DatumS::Str(x), DatumS::Str(y)) => {
            assert(enc_datum(a) + s =~= seq![1u8] + (enc_str(x) + s));
            assert(enc_datum(b) + t =~= seq![1u8] + (enc_str(y) + t));
            lemma_lex_concat(seq![1u8], seq![1u8], enc_str(x) + s, enc_str(y) + t);
            lemma_lex_irrefl(seq![1u8]);
            lemma_enc_str_decisive(x, y, s, t);
        },
        _ => {
            assert(false);
        },
    }
}

/// As `lemma_enc_datum_decisive`, with both encodings complemented.
proof fn lemma_enc_datum_decisive_inv(a: DatumS, b: DatumS, s: Seq<u8>, t: Seq<u8>)
    requires
        datum_compat(a, b),
        datum_ok(a),
        datum_ok(b),
    ensures
        lex_lt(inv_bytes(enc_datum(a)) + s, inv_bytes(enc_datum(b)) + t) <==> (datum_lt_nat(b, a)
            || (a == b && lex_lt(s, t))),
{
    match (a, b) {
        (DatumS::Null, DatumS::Null) => {
            assert(inv_bytes(enc_datum(a)) =~= seq![255u8]);
            assert(inv_bytes(enc_datum(b)) =~= seq![255u8]);
            lemma_lex_concat(seq![255u8], seq![255u8], s, t);
            lemma_lex_irrefl(seq![255u8]);
        },
        (DatumS::Null, _) => {
            let u = inv_bytes(enc_datum(a)) + s;
            let v = inv_bytes(enc_datum(b)) + t;
            assert(inv_bytes(enc_datum(a)) =~= seq![255u8]);
            assert(u[0] == 255u8);
            assert(enc_datum(b)[0] == 1u8);
            assert(v[0] == inv_bytes(enc_datum(b))[0]);
            assert(v[0] == 254u8);
            assert(!lex_lt(u, v));
        },
        (_, DatumS::Null) => {
            let u = inv_bytes(enc_datum(a)) + s;
            let v = inv_bytes(enc_datum(b)) + t;
            assert(enc_datum(a)[0] == 1u8);
            assert(u[0] == inv_bytes(enc_datum(a))[0]);
            assert(u[0] == 254u8);
            assert(inv_bytes(enc_datum(b)) =~= seq![255u8]);
            assert(v[0] == 255u8);
            assert(lex_lt(u, v));
        },
        (DatumS::Int(x), DatumS::Int(y)) => {
            let k1 = int_key(x);
            let k2 = int_key(y);
            lemma_pow256_values();
            lemma_be_index(k1, 8);
            lemma_be_index(k2, 8);
            let h = seq![1u8] + enc_u64_be(k1, 8);
            let g = seq![1u8] + enc_u64_be(k2, 8);
            assert(inv_bytes(enc_datum(a)) + s =~= inv_bytes(h) + s);
            assert(inv_bytes(enc_datum(b)) + t =~= inv_bytes(g) + t);
            lemma_lex_concat_inv(h, g, s, t);
            assert(h.skip(1) =~= enc_u64_be(k1, 8));
            assert(g.skip(1) =~= enc_u64_be(k2, 8));
            if k1 < k2 {
                lemma_be_order(k1, k2, 8);
                lemma_lex_asym(enc_u64_be(k1, 8), enc_u64_be(k2, 8));
                lemma_lex_irrefl(enc_u64_be(k1, 8));
                assert(lex_lt(h, g)) by {
                    lemma_lex_concat(seq![1u8], seq![1u8], enc_u64_be(k1, 8), enc_u64_be(k2, 8));
                    assert(h =~= seq![1u8] + enc_u64_be(k1, 8));
                    assert(g =~= seq![1u8] + enc_u64_be(k2, 8));
                }
                assert(h != g);
            } else if k2 < k1 {
                lemma_be_order(k2, k1, 8);
                lemma_lex_asym(enc_u64_be(k2, 8), enc_u64_be(k1, 8));
                lemma_lex_irrefl(enc_u64_be(k2, 8));
                assert(lex_lt(g, h)) by {
                    lemma_lex_concat(seq![1u8], seq![1u8], enc_u64_be(k2, 8), enc_u64_be(k1, 8));
                    assert(h =~= seq![1u8] + enc_u64_be(k1, 8));
                    assert(g =~= seq![1u8] + enc_u64_be(k2, 8));
                }
                assert(!lex_lt(h, g)) by {
                    lemma_lex_asym(h, g);
                }
                assert(h != g);
            } else {
                assert(x == y);
                assert(h =~= g);
                lemma_lex_irrefl(h);
                assert(!lex_lt(h, g));
                assert(!lex_lt(g, h));
            }
            assert((h == g) ==> k1 == k2) by {
                if h == g {
                    assert(h.skip(1) == g.skip(1));
                    if k1 != k2 {
                        lemma_be_bound(k1, 8);
                    }
                }
            }
        },
        (DatumS::Str(x), DatumS::Str(y)) => {
            assert(inv_bytes(enc_datum(a)) + s =~= seq![254u8] + (inv_bytes(enc_str(x)) + s)) by {
                assert(enc_datum(a) == seq![1u8] + enc_str(x));
            }
            assert(inv_bytes(enc_datum(b)) + t =~= seq![254u8] + (inv_bytes(enc_str(y)) + t)) by {
                assert(enc_datum(b) == seq![1u8] + enc_str(y));
            }
            lemma_lex_concat(
                seq![254u8],
                seq![254u8],
                inv_bytes(enc_str(x)) + s,
                inv_bytes(enc_str(y)) + t,
            );
            lemma_lex_irrefl(seq![254u8]);
            lemma_enc_str_decisive_inv(x, y, s, t);
        },
        _ => {
            assert(false);
        },
    }
}

/// The whole comparison is decided within the two column encodings.
proof fn lemma_enc_col_decisive(dir: Direction, a: DatumS, b: DatumS, s: Seq<u8>, t: Seq<u8>)
    requires
        datum_compat(a, b),
        datum_ok(a),
        datum_ok(b),
    ensures
        lex_lt(enc_col(dir, a) + s, enc_col(dir, b) + t) <==> (datum_lt(dir, a, b) || (a == b
            && lex_lt(s, t))),
{
    match dir {
        Direction::Ascending => {
            lemma_enc_datum_decisive(a, b, s, t);
        },
        Direction::Descending => {
            lemma_enc_datum_decisive_inv(a, b, s, t);
        },
    }
}

/// The full-row form of the decisive lemmas: comparing two encoded rows with
/// arbitrary suffixes decides exactly by the row order, then the suffixes.
proof fn lemma_enc_row_decisive(
    dirs: Seq<Direction>,
    a: Seq<DatumS>,
    b: Seq<DatumS>,
    s: Seq<u8>,
    t: Seq<u8>,
)
    requires
        a.len() == dirs.len(),
        b.len() == dirs.len(),
        rows_compat(a, b),
        rows_ok(a),
        rows_ok(b),
    ensures
        lex_lt(enc_row(dirs, a) + s, enc_row(dirs, b) + t) <==> (row_lt(dirs, a, b) || (a == b
            && lex_lt(s, t))),
    decreases a.len(),
{
    if a.len() == 0 {
        assert(enc_row(dirs, a) + s =~= s);
        assert(enc_row(dirs, b) + t =~= t);
        assert(a =~= b);
    } else {
        assert(enc_row(dirs, a) + s =~= enc_col(dirs[0], a[0]) + (enc_row(
            dirs.skip(1),
            a.skip(1),
        ) + s));
        assert(enc_row(dirs, b) + t =~= enc_col(dirs[0], b[0]) + (enc_row(
            dirs.skip(1),
            b.skip(1),
        ) + t));
        lemma_enc_col_decisive(
            dirs[0],
            a[0],
            b[0],
            enc_row(dirs.skip(1), a.skip(1)) + s,
            enc_row(dirs.skip(1), b.skip(1)) + t,
        );
        assert(rows_compat(a.skip(1), b.skip(1)) && rows_ok(a.skip(1)) && rows_ok(b.skip(1))) by {
            assert(forall|i: int|
                0 <= i < a.skip(1).len() ==> #[trigger] a.skip(1)[i] == a[i + 1] && b.skip(1)[i]
                    == b[i + 1]);
        }
        lemma_enc_row_decisive(dirs.skip(1), a.skip(1), b.skip(1), s, t);
        assert((a == b) == (a[0] == b[0] && a.skip(1) == b.skip(1))) by {
            if a[0] == b[0] && a.skip(1) == b.skip(1) {
                assert forall|j: int| 0 <= j < a.len() implies a[j] == b[j] by {
                    if j >= 1 {
                        assert(a.skip(1)[j - 1] == a[j]);
                        assert(b.skip(1)[j - 1] == b[j]);
                    }
                }
                assert(a =~= b);
            }
            if a == b {
                assert(a.skip(1) =~= b.skip(1));
            }
        }
        crate::row::lemma_datum_total(dirs[0], a[0], b[0]);
    }
}

/// As `lemma_enc_row_decisive`, on the complemented encodings: order reversed.
proof fn lemma_enc_row_decisive_inv(
    dirs: Seq<Direction>,
    a: Seq<DatumS>,
    b: Seq<DatumS>,
    s: Seq<u8>,
    t: Seq<u8>,
)
    requires
        a.len() == dirs.len(),
        b.len() == dirs.len(),
        rows_compat(a, b),
        rows_ok(a),
        rows_ok(b),
    ensures
        lex_lt(inv_bytes(enc_row(dirs, a)) + s, inv_bytes(enc_row(dirs, b)) + t) <==> (row_lt(
            dirs,
            b,
            a,
        ) || (a == b && lex_lt(s, t))),
    decreases a.len(),
{
    if a.len() == 0 {
        assert(inv_bytes(enc_row(dirs, a)) =~= Seq::<u8>::empty());
        assert(inv_bytes(enc_row(dirs, a)) + s =~= s);
        assert(inv_bytes(enc_row(dirs, b)) + t =~= t);
        assert(a =~= b);
    } else {
        lemma_inv_concat(enc_col(dirs[0], a[0]), enc_row(dirs.skip(1), a.skip(1)));
        lemma_inv_concat(enc_col(dirs[0], b[0]), enc_row(dirs.skip(1), b.skip(1)));
        assert(inv_bytes(enc_row(dirs, a)) + s =~= inv_bytes(enc_col(dirs[0], a[0])) + (inv_bytes(
            enc_row(dirs.skip(1), a.skip(1)),
        ) + s));
        assert(inv_bytes(enc_row(dirs, b)) + t =~= inv_bytes(enc_col(dirs[0], b[0])) + (inv_bytes(
            enc_row(dirs.skip(1), b.skip(1)),
        ) + t));
        let ss = inv_bytes(enc_row(dirs.skip(1), a.skip(1))) + s;
        let tt = inv_bytes(enc_row(dirs.skip(1), b.skip(1))) + t;
        match dirs[0] {
            Direction::Ascending => {
                lemma_enc_datum_decisive_inv(a[0], b[0], ss, tt);
            },
            Direction::Descending => {
                lemma_inv_involutive(enc_datum(a[0]));
                lemma_inv_involutive(enc_datum(b[0]));
                lemma_enc_datum_decisive(a[0], b[0], ss, tt);
            },
        }
        assert(rows_compat(a.skip(1), b.skip(1)) && rows_ok(a.skip(1)) && rows_ok(b.skip(1))) by {
            assert(forall|i: int|
                0 <= i < a.skip(1).len() ==> #[trigger] a.skip(1)[i] == a[i + 1] && b.skip(1)[i]
                    == b[i + 1]);
        }
        lemma_enc_row_decisive_inv(dirs.skip(1), a.skip(1), b.skip(1), s, t);
        assert((a == b) == (a[0] == b[0] && a.skip(1) == b.skip(1))) by {
            if a[0] == b[0] && a.skip(1) == b.skip(1) {
                assert forall|j: int| 0 <= j < a.len() implies a[j] == b[j] by {
                    if j >= 1 {
                        assert(a.skip(1)[j - 1] == a[j]);
                        assert(b.skip(1)[j - 1] == b[j]);
                    }
                }
                assert(a =~= b);
            }
            if a == b {
                assert(a.skip(1) =~= b.skip(1));
            }
        }
        crate::row::lemma_datum_total(dirs[0], a[0], b[0]);
    }
}

/// The forward encoding preserves the row order: `a` sorts before `b` exactly
/// when `encode_forward(a)` sorts before `encode_forward(b)`.
pub proof fn lemma_encode_forward_preserves_order(
    dirs: Seq<Direction>,
    a: Seq<DatumS>,
    b: Seq<DatumS>,
)
    requires
        a.len() == dirs.len(),
        b.len() == dirs.len(),
        rows_compat(a, b),
        rows_ok(a),
        rows_ok(b),
    ensures
        row_lt(dirs, a, b) <==> lex_lt(enc_row(dirs, a), enc_row(dirs, b)),
{
    lemma_enc_row_decisive(dirs, a, b, Seq::<u8>::empty(), Seq::<u8>::empty());
    assert(enc_row(dirs, a) + Seq::<u8>::empty() =~= enc_row(dirs, a));
    assert(enc_row(dirs, b) + Seq::<u8>::empty() =~= enc_row(dirs, b));
}

/// The reversed encoding reverses the row order: `a` sorts before `b` exactly
/// when `encode_reversed(b)` sorts before `encode_reversed(a)`.
pub proof fn lemma_encode_reversed_reverses_order(
    dirs: Seq<Direction>,
    a: Seq<DatumS>,
    b: Seq<DatumS>,
)
    requires
        a.len() == dirs.len(),
        b.len() == dirs.len(),
        rows_compat(a, b),
        rows_ok(a),
        rows_ok(b),
    ensures
        row_lt(dirs, a, b) <==> lex_lt(enc_row_rev(dirs, b), enc_row_rev(dirs, a)),
{
    lemma_enc_row_decisive_inv(dirs, b, a, Seq::<u8>::empty(), Seq::<u8>::empty());
    assert(inv_bytes(enc_row(dirs, b)) + Seq::<u8>::empty() =~= inv_bytes(enc_row(dirs, b)));
    assert(inv_bytes(enc_row(dirs, a)) + Seq::<u8>::empty() =~= inv_bytes(enc_row(dirs, a)));
}

/// Distinct rows never share a forward encoding.
pub proof fn lemma_enc_row_injective(dirs: Seq<Direction>, a: Seq<DatumS>, b: Seq<DatumS>)
    requires
        a.len() == dirs.len(),
        b.len() == dirs.len(),
        rows_compat(a, b),
        rows_ok(a),
        rows_ok(b),
        enc_row(dirs, a) == enc_row(dirs, b),
    ensures
        a == b,
{
    crate::row::lemma_row_total(dirs, a, b);
    if row_lt(dirs, a, b) {
        lemma_encode_forward_preserves_order(dirs, a, b);
        lemma_lex_irrefl(enc_row(dirs, a));
    }
    if row_lt(dirs, b, a) {
        lemma_encode_forward_preserves_order(dirs, b, a);
        lemma_lex_irrefl(enc_row(dirs, a));
    }
}

// ---------------------------------------------------------------------------
// executable encoding
// ---------------------------------------------------------------------------

/// The string encoding is its per-byte body followed by the terminator.
spec fn str_body(s: Seq<u8>) -> Seq<u8>
    decreases s.len(),
{
    if s.len() == 0 {
        seq![]
    } else {
        seq![1u8, s[0]] + str_body(s.skip(1))
    }
}

proof fn lemma_enc_str_body(s: Seq<u8>)
    ensures
        enc_str(s) == str_body(s) + seq![0u8],
    decreases s.len(),
{
    if s.len() == 0 {
        assert(enc_str(s) =~= str_body(s) + seq![0u8]);
    } else {
        lemma_enc_str_body(s.skip(1));
        assert(enc_str(s) =~= str_body(s) + seq![0u8]);
    }
}

proof fn lemma_str_body_snoc(s: Seq<u8>, x: u8)
    ensures
        str_body(s.push(x)) == str_body(s) + seq![1u8, x],
    decreases s.len(),
{
    if s.len() == 0 {
        assert(s.push(x)[0] == x);
        assert(s.push(x).skip(1) =~= Seq::<u8>::empty());
        assert(str_body(Seq::<u8>::empty()) == Seq::<u8>::empty());
        assert(str_body(s.push(x)) == seq![1u8, x] + str_body(s.push(x).skip(1)));
        assert(str_body(s.push(x)) =~= str_body(s) + seq![1u8, x]);
    } else {
        assert(s.push(x)[0] == s[0]);
        assert(s.push(x).skip(1) =~= s.skip(1).push(x));
        lemma_str_body_snoc(s.skip(1), x);
        assert(str_body(s.push(x)) == seq![1u8, s[0]] + str_body(s.skip(1).push(x)));
        assert(str_body(s) == seq![1u8, s[0]] + str_body(s.skip(1)));
        assert(seq![1u8, s[0]] + (str_body(s.skip(1)) + seq![1u8, x]) =~= (seq![1u8, s[0]]
            + str_body(s.skip(1))) + seq![1u8, x]);
    }
}

/// Append the eight big-endian bytes of `k`.
fn push_u64_be(out: &mut Vec<u8>, k: u64)
    ensures
        final(out)@ == old(out)@ + enc_u64_be(k as nat, 8),
{
    proof {
        lemma_pow256_values();
        lemma_be_index(k as nat, 8);
    }
    let b0 = ((k / 72057594037927936u64) % 256) as u8;
    let b1 = ((k / 281474976710656u64) % 256) as u8;
    let b2 = ((k / 1099511627776u64) % 256) as u8;
    let b3 = ((k / 4294967296u64) % 256) as u8;
    let b4 = ((k / 16777216u64) % 256) as u8;
    let b5 = ((k / 65536u64) % 256) as u8;
    let b6 = ((k / 256u64) % 256) as u8;
    let b7 = (k % 256) as u8;
    out.push(b0);
    out.push(b1);
    out.push(b2);
    out.push(b3);
    out.push(b4);
    out.push(b5);
    out.push(b6);
    out.push(b7);
    proof {
        assert(k as int / 1 == k as int);
        assert(out@ =~= old(out)@ + enc_u64_be(k as nat, 8));
    }
}

/// Append the ascending encoding of one datum.
fn push_datum(out: &mut Vec<u8>, d: &Datum)
    ensures
        final(out)@ == old(out)@ + enc_datum(d@),
{
    match d {
        Datum::Null => {
            out.push(0u8);
            proof {
                assert(out@ =~= old(out)@ + enc_datum(d@));
            }
        },
        Datum::Int(x) => {
            out.push(1u8);
            let k: u64 = (((*x) as i128) + 0x8000000000000000i128) as u64;
            proof {
                assert(k as nat == int_key(*x as int));
            }
            push_u64_be(out, k);
            proof {
                assert(out@ =~= old(out)@ + enc_datum(d@));
            }
        },
        Datum::Str(bts) => {
            out.push(1u8);
            let ghost mid = out@;
            let mut i: usize = 0;
            while i < bts.len()
                invariant
                    i <= bts.len(),
                    out@ == mid + str_body(bts@.take(i as int)),
                decreases bts.len() - i,
            {
                out.push(1u8);
                out.push(bts[i]);
                proof {
                    lemma_str_body_snoc(bts@.take(i as int), bts@[i as int]);
                    assert(bts@.take(i as int).push(bts@[i as int]) =~= bts@.take(i as int + 1));
                    assert(out@ =~= mid + str_body(bts@.take(i as int + 1)));
                }
                i = i + 1;
            }
            out.push(0u8);
            proof {
                assert(bts@.take(bts@.len() as int) =~= bts@);
                lemma_enc_str_body(bts@);
                assert(out@ =~= old(out)@ + enc_datum(d@));
            }
        },
    }
}

/// Append the encoding of one column, complemented when descending.
fn push_col(out: &mut Vec<u8>, d: &Datum, dir: Direction)
    ensures
        final(out)@ == old(out)@ + enc_col(dir, d@),
{
    match dir {
        Direction::Ascending => {
            push_datum(out, d);
        },
        Direction::Descending => {
            let mut tmp: Vec<u8> = Vec::new();
            push_datum(&mut tmp, d);
            proof {
                assert(tmp@ =~= enc_datum(d@));
            }
            let mut i: usize = 0;
            while i < tmp.len()
                invariant
                    i <= tmp.len(),
                    tmp@ == enc_datum(d@),
                    out@ == old(out)@ + inv_bytes(tmp@).take(i as int),
                decreases tmp.len() - i,
            {
                let b = tmp[i];
                out.push(255 - b);
                proof {
                    assert(inv_bytes(tmp@)[i as int] == (255 - tmp@[i as int]) as u8);
                    assert(out@ =~= old(out)@ + inv_bytes(tmp@).take(i as int + 1));
                }
                i = i + 1;
            }
            proof {
                assert(inv_bytes(tmp@).take(inv_bytes(tmp@).len() as int) =~= inv_bytes(tmp@));
            }
        },
    }
}

/// Encode a row forward: the byte string sorts as the row does.
pub fn encode_forward(row: &Row, dirs: &Vec<Direction>) -> (r: Vec<u8>)
    requires
        row@.len() == dirs@.len(),
    ensures
        r@ == enc_row(dirs@, row@),
{
    let mut out: Vec<u8> = Vec::new();
    let mut i: usize = 0;
    proof {
        assert(dirs@.skip(0) =~= dirs@);
        assert(row@.skip(0) =~= row@);
    }
    while i < dirs.len()
        invariant
            i <= dirs.len(),
            row@.len() == dirs@.len(),
            out@ + enc_row(dirs@.skip(i as int), row@.skip(i as int)) == enc_row(dirs@, row@),
        decreases dirs.len() - i,
    {
        proof {
            assert(dirs@.skip(i as int)[0] == dirs@[i as int]);
            assert(row@.skip(i as int)[0] == row@[i as int]);
            assert(row@[i as int] == row.0@[i as int]@);
            assert(dirs@.skip(i as int).skip(1) =~= dirs@.skip(i as int + 1));
            assert(row@.skip(i as int).skip(1) =~= row@.skip(i as int + 1));
        }
        let ghost before = out@;
        push_col(&mut out, &row.0[i], dirs[i]);
        proof {
            assert(out@ + enc_row(dirs@.skip(i as int + 1), row@.skip(i as int + 1)) =~= before
                + enc_row(dirs@.skip(i as int), row@.skip(i as int)));
        }
        i = i + 1;
    }
    proof {
        assert(enc_row(dirs@.skip(dirs@.len() as int), row@.skip(row@.len() as int))
            =~= Seq::<u8>::empty());
        assert(out@ + Seq::<u8>::empty() =~= out@);
    }
    out
}

/// Copy a byte string with every byte complemented.
fn invert_vec(v: &Vec<u8>) -> (r: Vec<u8>)
    ensures
        r@ == inv_bytes(v@),
{
    let mut out: Vec<u8> = Vec::new();
    let mut i: usize = 0;
    while i < v.len()
        invariant
            i <= v.len(),
            out@ == inv_bytes(v@).take(i as int),
        decreases v.len() - i,
    {
        let b = v[i];
        out.push(255 - b);
        proof {
            assert(inv_bytes(v@)[i as int] == (255 - v@[i as int]) as u8);
            assert(out@ =~= inv_bytes(v@).take(i as int + 1));
        }
        i = i + 1;
    }
    proof {
        assert(inv_bytes(v@).take(inv_bytes(v@).len() as int) =~= inv_bytes(v@));
    }
    out
}

/// Encode a row reversed: the byte string sorts opposite to the row.
pub fn encode_reversed(row: &Row, dirs: &Vec<Direction>) -> (r: Vec<u8>)
    requires
        row@.len() == dirs@.len(),
    ensures
        r@ == enc_row_rev(dirs@, row@),
{
    let fwd = encode_forward(row, dirs);
    invert_vec(&fwd)
}

// ---------------------------------------------------------------------------
// decoding
// ---------------------------------------------------------------------------

/// The value of big-endian base-256 digits.
pub open spec fn dec_be(s: Seq<u8>) -> nat
    decreases s.len(),
{
    if s.len() == 0 {
        0
    } else {
        256 * dec_be(s.drop_last()) + s.last() as nat
    }
}

/// Parse one escaped string: its content and the rest of the input.
pub open spec fn dec_str(s: Seq<u8>) -> Option<(Seq<u8>, Seq<u8>)>
    decreases s.len(),
{
    if s.len() == 0 {
        Option::None
    } else if s[0] == 0 {
        Option::Some((seq![], s.skip(1)))
    } else if s[0] == 1 && s.len() >= 2 {
        match dec_str(s.skip(2)) {
            Option::None => Option::None,
            Option::Some((c, r)) => Option::Some((seq![s[1]] + c, r)),
        }
    } else {
        Option::None
    }
}

/// Parse one ascending-encoded datum of the given type.
pub open spec fn dec_datum(t: DataType, s: Seq<u8>) -> Option<(DatumS, Seq<u8>)> {
    if s.len() == 0 {
        Option::None
    } else if s[0] == 0 {
        Option::Some((DatumS::Null, s.skip(1)))
    } else if s[0] == 1 {
        match t {
            DataType::Int64 => if s.len() >= 9 {
                Option::Some(
                    (DatumS::Int(dec_be(s.subrange(1, 9)) - 0x8000000000000000), s.skip(9)),
                )
            } else {
                Option::None
            },
            DataType::Varchar => match dec_str(s.skip(1)) {
                Option::None => Option::None,
                Option::Some((c, r)) => Option::Some((DatumS::Str(c), r)),
            },
        }
    } else {
        Option::None
    }
}

/// The view a column parser takes of its input: complemented when descending.
pub open spec fn xsee(dir: Direction, s: Seq<u8>) -> Seq<u8> {
    match dir {
        Direction::Ascending => s,
        Direction::Descending => inv_bytes(s),
    }
}

/// Parse one column under its direction.
pub open spec fn dec_col(dir: Direction, t: DataType, s: Seq<u8>) -> Option<(DatumS, Seq<u8>)> {
    match dec_datum(t, xsee(dir, s)) {
        Option::None => Option::None,
        Option::Some((d, r)) => Option::Some((d, xsee(dir, r))),
    }
}

/// Parse a whole row; the input must be consumed exactly.
pub open spec fn dec_row(schema: Seq<DataType>, dirs: Seq<Direction>, s: Seq<u8>) -> Option<
    Seq<DatumS>,
>
    decreases schema.len(),
{
    if schema.len() == 0 {
        if s.len() == 0 {
            Option::Some(seq![])
        } else {
            Option::None
        }
    } else if dirs.len() == 0 {
        Option::None
    } else {
        match dec_col(dirs[0], schema[0], s) {
            Option::None => Option::None,
            Option::Some((d, r)) => match dec_row(schema.skip(1), dirs.skip(1), r) {
                Option::None => Option::None,
                Option::Some(rest) => Option::Some(seq![d] + rest),
            },
        }
    }
}

/// The byte string a decode call actually parses.
pub open spec fn dnorm(reversed: bool, s: Seq<u8>) -> Seq<u8> {
    if reversed {
        inv_bytes(s)
    } else {
        s
    }
}

proof fn lemma_div256_bound(k: nat, n: nat)
    requires
        n > 0,
        k < pow256(n),
    ensures
        k / 256 < pow256((n - 1) as nat),
{
    let p = pow256((n - 1) as nat);
    assert(pow256(n) == 256 * p);
    if k / 256 >= p {
        assert(256 * (k as int / 256) >= 256 * (p as int)) by (nonlinear_arith)
            requires
                k as int / 256 >= p as int,
        ;
        lemma_fundamental_div_mod(k as int, 256);
    }
}

proof fn lemma_dec_be_roundtrip(k: nat, n: nat)
    requires
        k < pow256(n),
    ensures
        dec_be(enc_u64_be(k, n)) == k,
    decreases n,
{
    if n == 0 {
        assert(enc_u64_be(k, n) =~= Seq::<u8>::empty());
    } else {
        lemma_div256_bound(k, n);
        lemma_dec_be_roundtrip(k / 256, (n - 1) as nat);
        let e = enc_u64_be(k / 256, (n - 1) as nat);
        assert(enc_u64_be(k, n) == e.push((k % 256) as u8));
        assert(e.push((k % 256) as u8).drop_last() =~= e);
        assert(e.push((k % 256) as u8).last() == (k % 256) as u8);
        lemma_fundamental_div_mod(k as int, 256);
    }
}

proof fn lemma_dec_be_sound(s: Seq<u8>)
    ensures
        dec_be(s) < pow256(s.len()),
        enc_u64_be(dec_be(s), s.len()) == s,
    decreases s.len(),
{
    if s.len() == 0 {
        assert(enc_u64_be(0, 0) =~= s);
    } else {
        lemma_dec_be_sound(s.drop_last());
        let q = dec_be(s.drop_last());
        let r = s.last() as nat;
        let p = pow256((s.len() - 1) as nat);
        assert(pow256(s.len()) == 256 * p);
        assert(256 * q <= 256 * (p - 1)) by (nonlinear_arith)
            requires
                q <= p - 1,
        ;
        let k = dec_be(s);
        assert(k == 256 * q + r);
        lemma_fundamental_div_mod_converse_div(k as int, 256, q as int, r as int);
        lemma_fundamental_div_mod_converse_mod(k as int, 256, q as int, r as int);
        assert(k / 256 == q);
        assert(k % 256 == r);
        assert(enc_u64_be(k, s.len()) == enc_u64_be(q, (s.len() - 1) as nat).push(r as u8));
        assert(enc_u64_be(k, s.len()) =~= s);
    }
}

proof fn lemma_dec_str_roundtrip(x: Seq<u8>, r: Seq<u8>)
    ensures
        dec_str(enc_str(x) + r) == Option::Some((x, r)),
    decreases x.len(),
{
    let s = enc_str(x) + r;
    if x.len() == 0 {
        assert(s[0] == 0);
        assert(s.skip(1) =~= r);
        assert(x =~= Seq::<u8>::empty());
    } else {
        assert(enc_str(x) == seq![1u8, x[0]] + enc_str(x.skip(1)));
        assert(s[0] == 1 && s[1] == x[0]);
        assert(s.len() >= 2);
        lemma_dec_str_roundtrip(x.skip(1), r);
        assert(s.skip(2) =~= enc_str(x.skip(1)) + r);
        assert(seq![s[1]] + x.skip(1) =~= x);
    }
}

proof fn lemma_dec_str_sound(s: Seq<u8>)
    ensures
        dec_str(s) matches Option::Some((c, rest)) ==> s == enc_str(c) + rest,
    decreases s.len(),
{
    if s.len() == 0 {
    } else if s[0] == 0 {
        assert(s =~= enc_str(seq![]) + s.skip(1));
    } else if s[0] == 1 && s.len() >= 2 {
        lemma_dec_str_sound(s.skip(2));
        if let Option::Some((c2, rest2)) = dec_str(s.skip(2)) {
            let c = seq![s[1]] + c2;
            assert(c[0] == s[1]);
            assert(c.skip(1) =~= c2);
            assert(enc_str(c) == seq![1u8, s[1]] + enc_str(c2));
            assert(s =~= seq![1u8, s[1]] + s.skip(2));
            assert(seq![1u8, s[1]] + (enc_str(c2) + rest2) =~= (seq![1u8, s[1]] + enc_str(c2))
                + rest2);
        }
    }
}

proof fn lemma_dec_datum_roundtrip(t: DataType, d: DatumS, r: Seq<u8>)
    requires
        datum_wf(t, d),
    ensures
        dec_datum(t, enc_datum(d) + r) == Option::Some((d, r)),
{
    let s = enc_datum(d) + r;
    match d {
        DatumS::Null => {
            assert(s[0] == 0);
            assert(s.skip(1) =~= r);
        },
        DatumS::Int(x) => {
            let k = int_key(x);
            lemma_pow256_values();
            lemma_be_index(k, 8);
            assert(s[0] == 1);
            assert(s.len() >= 9);
            assert(s.subrange(1, 9) =~= enc_u64_be(k, 8));
            lemma_dec_be_roundtrip(k, 8);
            assert(s.skip(9) =~= r);
        },
        DatumS::Str(x) => {
            assert(s[0] == 1);
            assert(s.skip(1) =~= enc_str(x) + r);
            lemma_dec_str_roundtrip(x, r);
        },
    }
}

proof fn lemma_dec_datum_sound(t: DataType, s: Seq<u8>)
    ensures
        dec_datum(t, s) matches Option::Some((d, rest)) ==> datum_wf(t, d) && datum_ok(d) && s
            == enc_datum(d) + rest,
{
    if s.len() == 0 {
    } else if s[0] == 0 {
        assert(s =~= enc_datum(DatumS::Null) + s.skip(1));
    } else if s[0] == 1 {
        match t {
            DataType::Int64 => {
                if s.len() >= 9 {
                    let sub = s.subrange(1, 9);
                    lemma_dec_be_sound(sub);
                    lemma_pow256_values();
                    let k = dec_be(sub);
                    let x = k - 0x8000000000000000;
                    assert(int_key(x) == k);
                    assert(enc_u64_be(k, 8) == sub);
                    lemma_be_index(k, 8);
                    assert(s =~= (seq![1u8] + enc_u64_be(int_key(x), 8)) + s.skip(9));
                }
            },
            DataType::Varchar => {
                lemma_dec_str_sound(s.skip(1));
                if let Option::Some((c, rest)) = dec_str(s.skip(1)) {
                    assert(s =~= seq![1u8] + s.skip(1));
                    assert(seq![1u8] + (enc_str(c) + rest) =~= (seq![1u8] + enc_str(c)) + rest);
                }
            },
        }
    }
}

proof fn lemma_xsee_skip(dir: Direction, s: Seq<u8>, k: int)
    requires
        0 <= k <= s.len(),
    ensures
        xsee(dir, s).skip(k) == xsee(dir, s.skip(k)),
{
    match dir {
        Direction::Ascending => {},
        Direction::Descending => {
            assert(inv_bytes(s).skip(k) =~= inv_bytes(s.skip(k)));
        },
    }
}

proof fn lemma_xsee_invol(dir: Direction, s: Seq<u8>)
    ensures
        xsee(dir, xsee(dir, s)) == s,
{
    match dir {
        Direction::Ascending => {},
        Direction::Descending => {
            lemma_inv_involutive(s);
        },
    }
}

proof fn lemma_xsee_concat(dir: Direction, a: Seq<u8>, b: Seq<u8>)
    ensures
        xsee(dir, a + b) == xsee(dir, a) + xsee(dir, b),
{
    match dir {
        Direction::Ascending => {},
        Direction::Descending => {
            lemma_inv_concat(a, b);
        },
    }
}

proof fn lemma_dec_col_roundtrip(dir: Direction, t: DataType, d: DatumS, r: Seq<u8>)
    requires
        datum_wf(t, d),
    ensures
        dec_col(dir, t, enc_col(dir, d) + r) == Option::Some((d, r)),
{
    let s = enc_col(dir, d) + r;
    lemma_xsee_concat(dir, enc_col(dir, d), r);
    match dir {
        Direction::Ascending => {},
        Direction::Descending => {
            lemma_inv_involutive(enc_datum(d));
        },
    }
    assert(xsee(dir, s) == enc_datum(d) + xsee(dir, r));
    lemma_dec_datum_roundtrip(t, d, xsee(dir, r));
    lemma_xsee_invol(dir, r);
}

proof fn lemma_dec_col_sound(dir: Direction, t: DataType, s: Seq<u8>)
    ensures
        dec_col(dir, t, s) matches Option::Some((d, rest)) ==> datum_wf(t, d) && datum_ok(d) && s
            == enc_col(dir, d) + rest,
{
    lemma_dec_datum_sound(t, xsee(dir, s));
    if let Option::Some((d, r1)) = dec_datum(t, xsee(dir, s)) {
        lemma_xsee_concat(dir, enc_datum(d), r1);
        lemma_xsee_invol(dir, s);
        match dir {
            Direction::Ascending => {},
            Direction::Descending => {
                lemma_inv_involutive(enc_datum(d));
            },
        }
        assert(s == xsee(dir, enc_datum(d) + r1));
        assert(xsee(dir, enc_datum(d)) == enc_col(dir, d));
    }
}

/// Decoding inverts encoding: the parser accepts exactly the encodings, and
/// on the encoding of `x` it returns `x`.
pub proof fn lemma_dec_row_roundtrip(schema: Seq<DataType>, dirs: Seq<Direction>, x: Seq<DatumS>)
    requires
        row_wf(schema, x),
        dirs.len() == schema.len(),
    ensures
        dec_row(schema, dirs, enc_row(dirs, x)) == Option::Some(x),
    decreases schema.len(),
{
    if schema.len() == 0 {
        assert(enc_row(dirs, x) =~= Seq::<u8>::empty());
        assert(x =~= Seq::<u8>::empty().map(|i: int, b: u8| DatumS::Null).take(0));
        assert(x =~= seq![]);
    } else {
        assert(enc_row(dirs, x) == enc_col(dirs[0], x[0]) + enc_row(dirs.skip(1), x.skip(1)));
        lemma_dec_col_roundtrip(dirs[0], schema[0], x[0], enc_row(dirs.skip(1), x.skip(1)));
        assert(row_wf(schema.skip(1), x.skip(1))) by {
            assert(forall|i: int|
                0 <= i < x.skip(1).len() ==> #[trigger] x.skip(1)[i] == x[i + 1] && schema.skip(
                    1,
                )[i] == schema[i + 1]);
        }
        lemma_dec_row_roundtrip(schema.skip(1), dirs.skip(1), x.skip(1));
        assert(seq![x[0]] + x.skip(1) =~= x);
    }
}

/// What the parser accepts is well formed and re-encodes to the input.
pub proof fn lemma_dec_row_sound(schema: Seq<DataType>, dirs: Seq<Direction>, s: Seq<u8>)
    requires
        dirs.len() == schema.len(),
    ensures
        dec_row(schema, dirs, s) matches Option::Some(x) ==> row_wf(schema, x) && rows_ok(x) && s
            == enc_row(dirs, x),
    decreases schema.len(),
{
    if schema.len() == 0 {
        if s.len() == 0 {
            let x = dec_row(schema, dirs, s)->Some_0;
            assert(enc_row(dirs, x) =~= s);
        }
    } else {
        lemma_dec_col_sound(dirs[0], schema[0], s);
        if let Option::Some((d, r)) = dec_col(dirs[0], schema[0], s) {
            lemma_dec_row_sound(schema.skip(1), dirs.skip(1), r);
            if let Option::Some(rest) = dec_row(schema.skip(1), dirs.skip(1), r) {
                let x = seq![d] + rest;
                assert(x[0] == d);
                assert(x.skip(1) =~= rest);
                assert(row_wf(schema, x)) by {
                    assert(forall|i: int|
                        1 <= i < x.len() ==> #[trigger] x[i] == rest[i - 1] && schema[i]
                            == schema.skip(1)[i - 1]);
                }
                assert(rows_ok(x)) by {
                    assert(forall|i: int| 1 <= i < x.len() ==> #[trigger] x[i] == rest[i - 1]);
                }
                assert(enc_row(dirs, x) == enc_col(dirs[0], d) + enc_row(dirs.skip(1), rest)) by {
                    assert(enc_row(dirs, x) == enc_col(dirs[0], x[0]) + enc_row(
                        dirs.skip(1),
                        x.skip(1),
                    ));
                }
                assert(s =~= enc_col(dirs[0], d) + enc_row(dirs.skip(1), rest));
            }
        }
    }
}

/// Decoding round-trip: parsing the chosen encoding of a well-formed row,
/// after the normalization `decode` applies, gives back exactly that row.
pub proof fn lemma_decode_roundtrip(
    schema: Seq<DataType>,
    dirs: Seq<Direction>,
    x: Seq<DatumS>,
    reversed: bool,
)
    requires
        row_wf(schema, x),
        dirs.len() == schema.len(),
    ensures
        dec_row(
            schema,
            dirs,
            dnorm(reversed, if reversed { enc_row_rev(dirs, x) } else { enc_row(dirs, x) }),
        ) == Option::Some(x),
{
    lemma_dec_row_roundtrip(schema, dirs, x);
    if reversed {
        lemma_inv_involutive(enc_row(dirs, x));
    }
}

/// Read the byte at `i` as the column parser sees it.
fn norm_byte(b: u8, dir: Direction) -> (r: u8)
    ensures
        r == match dir {
            Direction::Ascending => b,
            Direction::Descending => (255 - b) as u8,
        },
{
    match dir {
        Direction::Ascending => b,
        Direction::Descending => 255 - b,
    }
}

/// Parse one column of `work` starting at `i`; on success, the datum and the
/// index just past it.
fn parse_col(work: &Vec<u8>, i: usize, dir: Direction, t: DataType) -> (res: Option<(Datum, usize)>)
    requires
        i <= work@.len(),
    ensures
        match res {
            Option::Some((d, j)) => i <= j <= work@.len() && dec_col(dir, t, work@.skip(i as int))
                == Option::Some((d@, work@.skip(j as int))),
            Option::None => dec_col(dir, t, work@.skip(i as int)) is None,
        },
{
    let ghost sv = xsee(dir, work@.skip(i as int));
    proof {
        assert(sv.len() == work@.len() - i);
    }
    if i == work.len() {
        return Option::None;
    }
    let m0 = norm_byte(work[i], dir);
    proof {
        assert(sv[0] == m0);
    }
    if m0 == 0 {
        proof {
            lemma_xsee_skip(dir, work@.skip(i as int), 1);
            assert(work@.skip(i as int).skip(1) =~= work@.skip(i as int + 1));
            lemma_xsee_invol(dir, work@.skip(i as int + 1));
        }
        return Option::Some((Datum::Null, i + 1));
    }
    if m0 != 1 {
        return Option::None;
    }
    match t {
        DataType::Int64 => {
            if work.len() - i < 9 {
                return Option::None;
            }
            proof {
                lemma_pow256_values();
            }
            let mut k: u64 = 0;
            let mut m: usize = 0;
            proof {
                assert(sv.subrange(1, 1) =~= Seq::<u8>::empty());
            }
            while m < 8
                invariant
                    m <= 8,
                    i + 9 <= work@.len(),
                    work@.len() <= usize::MAX,
                    sv == xsee(dir, work@.skip(i as int)),
                    sv.len() == work@.len() - i,
                    k as nat == dec_be(sv.subrange(1, 1 + m as int)),
                    (k as nat) < pow256(m as nat),
                    pow256(8) == 18446744073709551616,
                decreases 8 - m,
            {
                proof {
                    lemma_pow256_values();
                    assert(pow256(m as nat) <= pow256(7)) by {
                        lemma_pow256_mono(m as nat, 7);
                    }
                }
                let b = norm_byte(work[i + 1 + m], dir);
                proof {
                    assert(sv[1 + m as int] == b);
                    assert(sv.subrange(1, 2 + m as int).drop_last() =~= sv.subrange(
                        1,
                        1 + m as int,
                    ));
                    assert(sv.subrange(1, 2 + m as int).last() == sv[1 + m as int]);
                }
                k = k * 256 + (b as u64);
                m = m + 1;
            }
            let xv: i64 = ((k as i128) - 0x8000000000000000i128) as i64;
            proof {
                assert(sv.subrange(1, 9).len() == 8);
                assert(xv as int == dec_be(sv.subrange(1, 9)) - 0x8000000000000000);
                lemma_xsee_skip(dir, work@.skip(i as int), 9);
                assert(work@.skip(i as int).skip(9) =~= work@.skip(i as int + 9));
                lemma_xsee_invol(dir, work@.skip(i as int + 9));
            }
            Option::Some((Datum::Int(xv), i + 9))
        },
        DataType::Varchar => {
            let mut content: Vec<u8> = Vec::new();
            let mut j: usize = i + 1;
            proof {
                lemma_xsee_skip(dir, work@.skip(i as int), 1);
                assert(work@.skip(i as int).skip(1) =~= work@.skip(i as int + 1));
            }
            loop
                invariant
                    i + 1 <= j <= work@.len(),
                    work@.len() <= usize::MAX,
                    t == DataType::Varchar,
                    sv == xsee(dir, work@.skip(i as int)),
                    sv.len() == work@.len() - i,
                    sv[0] == 1,
                    dec_str(sv.skip(1)) == (match dec_str(xsee(dir, work@.skip(j as int))) {
                        Option::None => Option::None,
                        Option::Some((c, r)) => Option::Some((content@ + c, r)),
                    }),
                decreases work@.len() - j,
            {
                let ghost svj = xsee(dir, work@.skip(j as int));
                proof {
                    assert(svj.len() == work@.len() - j);
                }
                if j == work.len() {
                    return Option::None;
                }
                let mb = norm_byte(work[j], dir);
                proof {
                    assert(svj[0] == mb);
                }
                if mb == 0 {
                    proof {
                        lemma_xsee_skip(dir, work@.skip(j as int), 1);
                        assert(work@.skip(j as int).skip(1) =~= work@.skip(j as int + 1));
                        lemma_xsee_invol(dir, work@.skip(j as int + 1));
                        assert(content@ + Seq::<u8>::empty() =~= content@);
                    }
                    return Option::Some((Datum::Str(content), j + 1));
                }
                if mb != 1 {
                    return Option::None;
                }
                if j + 1 == work.len() {
                    proof {
                        assert(svj.len() < 2);
                    }
                    return Option::None;
                }
                let db = norm_byte(work[j + 1], dir);
                proof {
                    assert(svj[1] == db);
                }
                let ghost oldc = content@;
                content.push(db);
                proof {
                    lemma_xsee_skip(dir, work@.skip(j as int), 2);
                    assert(work@.skip(j as int).skip(2) =~= work@.skip(j as int + 2));
                    assert forall|c2: Seq<u8>|
                        true implies (oldc + (seq![db] + c2)) == (content@ + c2) by {
                        assert(oldc + (seq![db] + c2) =~= content@ + c2);
                    }
                }
                j = j + 2;
            }
        },
    }
}

proof fn lemma_pow256_mono(a: nat, b: nat)
    requires
        a <= b,
    ensures
        pow256(a) <= pow256(b),
    decreases b,
{
    if a < b {
        lemma_pow256_mono(a, (b - 1) as nat);
        lemma_pow256_pos((b - 1) as nat);
    }
}

/// Decode a row from its forward (or, with `reversed`, its reversed)
/// encoding; malformed input is rejected.
pub fn decode(bytes: &Vec<u8>, schema: &Vec<DataType>, dirs: &Vec<Direction>, reversed: bool) -> (res:
    Result<Row, crate::StateError>)
    requires
        schema@.len() == dirs@.len(),
    ensures
        match res {
            Result::Ok(r) => {
                &&& dec_row(schema@, dirs@, dnorm(reversed, bytes@)) == Option::Some(r@)
                &&& row_wf(schema@, r@)
                &&& rows_ok(r@)
                &&& bytes@ == if reversed {
                    enc_row_rev(dirs@, r@)
                } else {
                    enc_row(dirs@, r@)
                }
            },
            Result::Err(e) => e == crate::StateError::Codec && dec_row(
                schema@,
                dirs@,
                dnorm(reversed, bytes@),
            ) is None,
        },
{
    let work: Vec<u8> = if reversed {
        invert_vec(bytes)
    } else {
        crate::row::copy_bytes(bytes)
    };
    proof {
        assert(work@ == dnorm(reversed, bytes@));
    }
    let mut vals: Vec<Datum> = Vec::new();
    let mut i: usize = 0;
    let mut col: usize = 0;
    proof {
        assert(schema@.skip(0) =~= schema@);
        assert(dirs@.skip(0) =~= dirs@);
        assert(work@.skip(0) =~= work@);
    }
    while col < schema.len()
        invariant
            col <= schema@.len(),
            i <= work@.len(),
            schema@.len() == dirs@.len(),
            vals@.len() == col,
            work@ == dnorm(reversed, bytes@),
            dec_row(schema@, dirs@, work@) == (match dec_row(
                schema@.skip(col as int),
                dirs@.skip(col as int),
                work@.skip(i as int),
            ) {
                Option::None => Option::None::<Seq<DatumS>>,
                Option::Some(rest) => Option::Some(vals@.map(|q: int, d: Datum| d@) + rest),
            }),
        decreases schema@.len() - col,
    {
        proof {
            assert(schema@.skip(col as int)[0] == schema@[col as int]);
            assert(dirs@.skip(col as int)[0] == dirs@[col as int]);
            assert(schema@.skip(col as int).skip(1) =~= schema@.skip(col as int + 1));
            assert(dirs@.skip(col as int).skip(1) =~= dirs@.skip(col as int + 1));
        }
        match parse_col(&work, i, dirs[col], schema[col]) {
            Option::None => {
                return Result::Err(crate::StateError::Codec);
            },
            Option::Some((d, j)) => {
                let ghost old_vals = vals@;
                vals.push(d);
                proof {
                    assert forall|rest2: Seq<DatumS>|
                        true implies (old_vals.map(|q: int, d2: Datum| d2@) + (seq![d@] + rest2))
                        == (vals@.map(|q: int, d2: Datum| d2@) + rest2) by {
                        assert(old_vals.map(|q: int, d2: Datum| d2@) + (seq![d@] + rest2)
                            =~= vals@.map(|q: int, d2: Datum| d2@) + rest2);
                    }
                }
                i = j;
                col = col + 1;
            },
        }
    }
    if i != work.len() {
        return Result::Err(crate::StateError::Codec);
    }
    proof {
        assert(work@.skip(i as int).len() == 0);
        assert(vals@.map(|q: int, d: Datum| d@) + seq![] =~= vals@.map(|q: int, d: Datum| d@));
        lemma_dec_row_sound(schema@, dirs@, work@);
        if reversed {
            lemma_inv_involutive(bytes@);
        }
    }
    let out = Row(vals);
    proof {
        assert(out@ =~= out.0@.map(|q: int, d: Datum| d@));
    }
    Result::Ok(out)
}

} // verus!
