use vstd::prelude::*;
use vstd::arithmetic::div_mod::lemma_fundamental_div_mod_converse;
use crate::backend::setup::shape::{hex_adjacency, hex_neighbors, lemma_hex_neighbors_in_range, lemma_node_count_is_ring_sum, lemma_ring_start_monotonic, node_count, node_ring_count, ring_len, ring_start, rows_before};

verus! {

/// Whether row `i` of an adjacency table names node `j`.
pub open spec fn names(table: Seq<Seq<Option<int>>>, i: int, j: int) -> bool {
    exists|c: int| 0 <= c < table[i].len() && #[trigger] table[i][c] == Some(j)
}

/// Whether an adjacency table describes a simple undirected graph: every
/// neighbour named is a node and not the node itself, no row names a
/// neighbour twice, and whenever a node names a neighbour the neighbour
/// names the node.
pub open spec fn is_simple_graph(table: Seq<Seq<Option<int>>>) -> bool {
    &&& forall|i: int, c: int|
        0 <= i < table.len() && 0 <= c < table[i].len() ==> match #[trigger] table[i][c] {
            Some(j) => 0 <= j < table.len() && j != i && names(table, j, i),
            None => true,
        }
    &&& forall|i: int, c: int, d: int|
        0 <= i < table.len() && 0 <= c < d < table[i].len() && table[i][c] is Some
            ==> #[trigger] table[i][c] != #[trigger] table[i][d]
}

/// The quotient and the remainder of a number written as `q·d + r`.
pub proof fn lemma_divide(x: int, d: int, q: int, r: int)
    requires
        d > 0,
        0 <= r < d,
        x == q * d + r,
    ensures
        x / d == q,
        x % d == r,
{
    lemma_fundamental_div_mod_converse(x, d, q, r);
}

/// The row of the node at the start of an odd ring.
pub proof fn lemma_odd_row_start(rings: int, k: int)
    requires
        k >= 1,
        k % 2 == 1,
    ensures
        hex_neighbors(rings, k, 0) =~= seq![
            Some(ring_start(k - 1)),
            Some(ring_start(k + 1)),
            Some(ring_start(k + 1) + ring_len(k + 1) - 1),
        ],
{
}

/// The row of a node of an odd ring `k` at position `q·h + u`, where `h` is
/// half of `k + 1` and `qh` is `q·h`: the node at the same position of the
/// ring inside, and two nodes next to each other in the ring outside, `q`
/// places further round than the node itself, or one place less at the
/// start of a side.
pub proof fn lemma_odd_row(rings: int, k: int, q: int, u: int, qh: int)
    requires
        k >= 1,
        k % 2 == 1,
        0 <= q,
        0 <= u < (k + 1) / 2,
        qh == q * ((k + 1) / 2),
        qh + u > 0,
    ensures
        ({
            let p = qh + u;
            let shift = if u == 0 {
                q - 1
            } else {
                q
            };
            let row = hex_neighbors(rings, k, p);
            &&& row.len() == 3
            &&& row[0] == Some(ring_start(k - 1) + p)
            &&& row[1] == Some(ring_start(k + 1) + p + shift)
            &&& row[2] == Some(ring_start(k + 1) + p + shift + 1)
        }),
{
    let h = (k + 1) / 2;
    let p = qh + u;
    assert(k + 1 == 2 * h);
    if u == 0 {
        assert(q >= 1) by (nonlinear_arith)
            requires
                qh == q * h,
                qh + u > 0,
                u == 0,
                q >= 0,
                h >= 1,
        ;
        assert(2 * p - 1 == (q - 1) * (k + 1) + (2 * h - 1)) by (nonlinear_arith)
            requires
                p == qh + u,
                qh == q * h,
                u == 0,
                k + 1 == 2 * h,
        ;
        lemma_divide(2 * p - 1, k + 1, q - 1, 2 * h - 1);
    } else {
        assert(2 * p - 1 == q * (k + 1) + (2 * u - 1)) by (nonlinear_arith)
            requires
                p == qh + u,
                qh == q * h,
                k + 1 == 2 * h,
        ;
        lemma_divide(2 * p - 1, k + 1, q, 2 * u - 1);
    }
}

/// The row of the node at the start of an odd ring, entry by entry.
pub proof fn lemma_odd_start(rings: int, k: int)
    requires
        k >= 1,
        k % 2 == 1,
    ensures
        hex_neighbors(rings, k, 0).len() == 3,
        hex_neighbors(rings, k, 0)[0] == Some(ring_start(k - 1)),
        hex_neighbors(rings, k, 0)[1] == Some(ring_start(k + 1)),
        hex_neighbors(rings, k, 0)[2] == Some(ring_start(k + 1) + ring_len(k + 1) - 1),
{
    lemma_odd_row_start(rings, k);
}

/// The row of a node of an even ring `k >= 2` at position `s·m + t`, where
/// `m` is the number of nodes on a side of the ring and `sh` is `s·(m-1)`.
pub proof fn lemma_even_row(rings: int, k: int, s: int, t: int, sh: int)
    requires
        k >= 2,
        k % 2 == 0,
        0 <= s,
        0 <= t < 1 + k / 2,
        sh == s * (k / 2),
    ensures
        ({
            let m = 1 + k / 2;
            let p = sh + s + t;
            let inner = ring_start(k - 1) + sh + t;
            let first = if t == 0 {
                inner
            } else if t == 1 {
                ring_start(k) + p - 1
            } else {
                inner - 1
            };
            let second = if p + 1 == 6 * m {
                ring_start(k - 1)
            } else if t == 0 {
                ring_start(k) + p + 1
            } else {
                inner
            };
            let row = hex_neighbors(rings, k, p);
            &&& row.len() == 3
            &&& row[0] == Some(first)
            &&& row[1] == Some(second)
            &&& row[2] == if k + 2 < 2 * rings {
                Some(ring_start(k + 1) + p)
            } else {
                None
            }
        }),
{
    let m = 1 + k / 2;
    let p = sh + s + t;
    assert(ring_len(k) == 6 * m);
    assert(ring_len(k) / 6 == m);
    assert(p == s * m + t) by (nonlinear_arith)
        requires
            p == sh + s + t,
            sh == s * (m - 1),
    ;
    lemma_divide(p, m, s, t);
}

/// Whether `(k, p)` is a node of the board: position `p` of node ring `k`.
pub open spec fn is_node(rings: int, k: int, p: int) -> bool {
    0 <= k < node_ring_count(rings) && 0 <= p < ring_len(k)
}

/// Whether the node `(kn, pn)` is the neighbour that entry `c` of the row
/// of node `(k, p)` names, and names `(k, p)` back at its entry `cn`.
pub open spec fn links_back(rings: int, k: int, p: int, c: int, kn: int, pn: int, cn: int) -> bool {
    &&& is_node(rings, kn, pn)
    &&& 0 <= cn < 3
    &&& hex_neighbors(rings, k, p)[c] == Some(ring_start(kn) + pn)
    &&& hex_neighbors(rings, kn, pn)[cn] == Some(ring_start(k) + p)
}

/// A position `p` below `6·d` written as `q·d + r`, with the product
/// `q·d` and the products next to it.
pub proof fn lemma_place(p: int, d: int) -> (place: (int, int, int))
    requires
        d >= 1,
        0 <= p < 6 * d,
    ensures
        ({
            let (q, r, qd) = place;
            &&& q == p / d
            &&& r == p % d
            &&& 0 <= q <= 5
            &&& 0 <= r < d
            &&& qd == q * d
            &&& p == qd + r
            &&& 0 <= qd <= 5 * d
            &&& qd + q == q * (d + 1)
            &&& qd - q == q * (d - 1)
            &&& qd + d == (q + 1) * d
            &&& qd - d == (q - 1) * d
            &&& (q >= 1 ==> qd >= d)
            &&& (q <= 4 ==> qd <= 4 * d)
            &&& (q == 0 ==> qd == 0)
            &&& 0 <= qd - q <= 5 * (d - 1)
            &&& (q >= 1 ==> qd - q >= d - 1)
            &&& (q <= 4 ==> qd - q <= 4 * (d - 1))
            &&& qd - q + (d - 1) == (q + 1) * (d - 1)
        }),
{
    let q = p / d;
    let r = p % d;
    let qd = q * d;
    assert(0 <= q <= 5 && 0 <= r < d && p == q * d + r) by (nonlinear_arith)
        requires
            q == p / d,
            r == p % d,
            0 <= p < 6 * d,
            d >= 1,
    ;
    assert(qd + q == q * (d + 1) && qd - q == q * (d - 1) && qd + d == (q + 1) * d && qd - d == (q
        - 1) * d) by (nonlinear_arith)
        requires
            qd == q * d,
    ;
    assert(0 <= qd <= 5 * d && (q >= 1 ==> qd >= d) && (q <= 4 ==> qd <= 4 * d) && (q == 0 ==> qd
        == 0)) by (nonlinear_arith)
        requires
            qd == q * d,
            0 <= q <= 5,
            d >= 1,
    ;
    let e = d - 1;
    let qe = qd - q;
    assert(qe == q * e && qe + e == (q + 1) * e) by (nonlinear_arith)
        requires
            qd == q * d,
            e == d - 1,
            qe == qd - q,
    ;
    assert(0 <= qe <= 5 * e && (q >= 1 ==> qe >= e) && (q <= 4 ==> qe <= 4 * e)) by (nonlinear_arith)
        requires
            qe == q * e,
            0 <= q <= 5,
            e >= 0,
    ;
    (q, r, qd)
}

proof fn lemma_link_ring_zero(rings: int, p: int, c: int) -> (w: (int, int, int))
    requires
        1 <= rings,
        is_node(rings, 0, p),
        0 <= c < 3,
        hex_neighbors(rings, 0, p)[c] is Some,
    ensures
        links_back(rings, 0, p, c, w.0, w.1, w.2),
{
    assert(ring_start(1) == 6 && ring_start(0) == 0) by {
        reveal_with_fuel(ring_start, 3);
    }
    let row = hex_neighbors(rings, 0, p);
    assert(row[0] == Some((p + 5) % 6));
    assert(row[1] == Some((p + 1) % 6));
    if c == 0 {
        let pn = (p + 5) % 6;
        assert(hex_neighbors(rings, 0, pn)[1] == Some((pn + 1) % 6));
        (0, pn, 1)
    } else if c == 1 {
        let pn = (p + 1) % 6;
        assert(hex_neighbors(rings, 0, pn)[0] == Some((pn + 5) % 6));
        (0, pn, 0)
    } else {
        assert(row[2] == Some(p + 6));
        if p == 0 {
            lemma_odd_start(rings, 1);
        } else {
            assert(p * 1 == p) by (nonlinear_arith);
            lemma_odd_row(rings, 1, p, 0, p);
        }
        assert(hex_neighbors(rings, 1, p)[0] == Some(p));
        (1, p, 0)
    }
}

proof fn lemma_link_odd_start(rings: int, k: int, c: int) -> (w: (int, int, int))
    requires
        1 <= rings,
        is_node(rings, k, 0),
        k % 2 == 1,
        0 <= c < 3,
    ensures
        links_back(rings, k, 0, c, w.0, w.1, w.2),
{
    let h = (k + 1) / 2;
    let m = h + 1;
    assert(ring_len(k + 1) == 6 * m);
    assert(1 + (k + 1) / 2 == m);
    assert((k + 1) / 2 == h);
    assert(ring_start(1) == 6 && ring_start(0) == 0) by {
        reveal_with_fuel(ring_start, 3);
    }
    lemma_odd_start(rings, k);
    let me = ring_start(k);
    if c == 0 {
        if k == 1 {
            assert(hex_neighbors(rings, 0, 0)[2] == Some(6int));
        } else {
            assert(0 * ((k - 1) / 2) == 0) by (nonlinear_arith);
            lemma_even_row(rings, k - 1, 0, 0, 0);
            assert(hex_neighbors(rings, k - 1, 0)[2] == Some(me));
        }
        (k - 1, 0, 2)
    } else if c == 1 {
        assert(0 * h == 0) by (nonlinear_arith);
        lemma_even_row(rings, k + 1, 0, 0, 0);
        assert(hex_neighbors(rings, k + 1, 0)[0] == Some(me));
        (k + 1, 0, 0)
    } else {
        assert(5 * h == 5 * ((k + 1) / 2));
        lemma_even_row(rings, k + 1, 5, m - 1, 5 * h);
        let pn = 5 * h + 5 + (m - 1);
        assert(pn == 6 * m - 1);
        assert(hex_neighbors(rings, k + 1, pn)[1] == Some(me));
        (k + 1, pn, 1)
    }
}

proof fn lemma_link_odd_inward(rings: int, k: int, p: int) -> (w: (int, int, int))
    requires
        1 <= rings,
        is_node(rings, k, p),
        k % 2 == 1,
        p > 0,
    ensures
        links_back(rings, k, p, 0, w.0, w.1, w.2),
{
    let h = (k + 1) / 2;
    assert(ring_len(k) == 6 * h);
    assert(ring_len(k - 1) == 6 * h);
    assert(ring_start(k) == ring_start(k - 1) + ring_len(k - 1));
    assert(ring_start(1) == 6 && ring_start(0) == 0) by {
        reveal_with_fuel(ring_start, 3);
    }
    let (q, u, qh) = lemma_place(p, h);
    lemma_odd_row(rings, k, q, u, qh);
    let me = ring_start(k) + p;
    assert(hex_neighbors(rings, k, p)[0] == Some(ring_start(k - 1) + p));
    if k == 1 {
        assert(hex_neighbors(rings, 0, p)[2] == Some(p + 6));
    } else {
        assert(1 + (k - 1) / 2 == h);
        assert((k - 1) / 2 == h - 1);
        lemma_even_row(rings, k - 1, q, u, qh - q);
        assert(qh - q + q + u == p);
        assert(hex_neighbors(rings, k - 1, p)[2] == Some(ring_start(k) + p));
    }
    (k - 1, p, 2)
}

proof fn lemma_link_odd_outward(rings: int, k: int, p: int, c: int) -> (w: (int, int, int))
    requires
        1 <= rings,
        is_node(rings, k, p),
        k % 2 == 1,
        p > 0,
        1 <= c < 3,
    ensures
        links_back(rings, k, p, c, w.0, w.1, w.2),
{
    let h = (k + 1) / 2;
    let m = h + 1;
    assert(ring_len(k) == 6 * h);
    assert(ring_len(k + 1) == 6 * m);
    assert(1 + (k + 1) / 2 == m);
    assert((k + 1) / 2 == h);
    let (q, u, qh) = lemma_place(p, h);
    lemma_odd_row(rings, k, q, u, qh);
    let me = ring_start(k) + p;
    let out = ring_start(k + 1);
    if c == 1 {
        if u == 0 {
            assert(q >= 1);
            assert(hex_neighbors(rings, k, p)[1] == Some(out + p + q - 1));
            lemma_even_row(rings, k + 1, q - 1, m - 1, qh - h);
            let pn = (qh - h) + (q - 1) + (m - 1);
            assert(pn == p + q - 1);
            assert(pn + 1 != 6 * m);
            assert(hex_neighbors(rings, k + 1, pn)[1] == Some(ring_start(k) + (qh - h) + (m - 1)));
            (k + 1, pn, 1)
        } else {
            assert(hex_neighbors(rings, k, p)[1] == Some(out + p + q));
            lemma_even_row(rings, k + 1, q, u, qh);
            let pn = qh + q + u;
            assert(pn == p + q);
            assert(pn + 1 != 6 * m);
            assert(hex_neighbors(rings, k + 1, pn)[1] == Some(ring_start(k) + qh + u));
            (k + 1, pn, 1)
        }
    } else {
        if u == 0 {
            assert(q >= 1);
            assert(hex_neighbors(rings, k, p)[2] == Some(out + p + q));
            lemma_even_row(rings, k + 1, q, 0, qh);
            let pn = qh + q;
            assert(hex_neighbors(rings, k + 1, pn)[0] == Some(ring_start(k) + qh));
            (k + 1, pn, 0)
        } else {
            assert(hex_neighbors(rings, k, p)[2] == Some(out + p + q + 1));
            lemma_even_row(rings, k + 1, q, u + 1, qh);
            let pn = qh + q + u + 1;
            assert(hex_neighbors(rings, k + 1, pn)[0] == Some(ring_start(k) + qh + u + 1 - 1));
            (k + 1, pn, 0)
        }
    }
}

proof fn lemma_link_odd(rings: int, k: int, p: int, c: int) -> (w: (int, int, int))
    requires
        1 <= rings,
        is_node(rings, k, p),
        k % 2 == 1,
        0 <= c < 3,
    ensures
        links_back(rings, k, p, c, w.0, w.1, w.2),
{
    if p == 0 {
        lemma_link_odd_start(rings, k, c)
    } else if c == 0 {
        lemma_link_odd_inward(rings, k, p)
    } else {
        lemma_link_odd_outward(rings, k, p, c)
    }
}

proof fn lemma_link_even_outward(rings: int, k: int, p: int) -> (w: (int, int, int))
    requires
        1 <= rings,
        is_node(rings, k, p),
        k % 2 == 0,
        k >= 2,
        hex_neighbors(rings, k, p)[2] is Some,
    ensures
        links_back(rings, k, p, 2, w.0, w.1, w.2),
{
    let m = 1 + k / 2;
    assert(ring_len(k) == 6 * m);
    assert(ring_len(k + 1) == 6 * m);
    assert((k + 1 + 1) / 2 == m);
    assert(ring_start(k + 1) == ring_start(k) + ring_len(k));
    let (s, t, sm) = lemma_place(p, m);
    lemma_even_row(rings, k, s, t, sm - s);
    assert(sm - s + s + t == p);
    assert(k + 2 < 2 * rings);
    assert(hex_neighbors(rings, k, p)[2] == Some(ring_start(k + 1) + p));
    if p == 0 {
        lemma_odd_start(rings, k + 1);
    } else {
        lemma_odd_row(rings, k + 1, s, t, sm);
    }
    assert(hex_neighbors(rings, k + 1, p)[0] == Some(ring_start(k) + p));
    (k + 1, p, 0)
}

proof fn lemma_link_even_first(rings: int, k: int, p: int) -> (w: (int, int, int))
    requires
        1 <= rings,
        is_node(rings, k, p),
        k % 2 == 0,
        k >= 2,
    ensures
        links_back(rings, k, p, 0, w.0, w.1, w.2),
{
    let m = 1 + k / 2;
    let h = k / 2;
    assert(ring_len(k) == 6 * m);
    assert(ring_len(k - 1) == 6 * h);
    assert((k - 1 + 1) / 2 == h);
    assert(ring_start(k) == ring_start(k - 1) + ring_len(k - 1));
    assert(ring_start(k + 1) == ring_start(k) + ring_len(k));
    let (s, t, sm) = lemma_place(p, m);
    let sh = sm - s;
    lemma_even_row(rings, k, s, t, sh);
    assert(sh + s + t == p);
    assert(0 <= sh <= 5 * h);
    let me = ring_start(k) + p;
    let inner = ring_start(k - 1) + sh + t;
    if t == 0 {
        assert(hex_neighbors(rings, k, p)[0] == Some(inner));
        if s == 0 {
            lemma_odd_start(rings, k - 1);
            (k - 1, 0, 1)
        } else {
            assert(sh >= h);
            lemma_odd_row(rings, k - 1, s, 0, sh);
            assert(hex_neighbors(rings, k - 1, sh)[2] == Some(ring_start(k) + sh + (s - 1) + 1));
            (k - 1, sh, 2)
        }
    } else if t == 1 {
        assert(hex_neighbors(rings, k, p)[0] == Some(ring_start(k) + p - 1));
        lemma_even_row(rings, k, s, 0, sh);
        let pn = sh + s;
        assert(pn == p - 1);
        assert(hex_neighbors(rings, k, pn)[1] == Some(ring_start(k) + pn + 1));
        (k, pn, 1)
    } else {
        assert(hex_neighbors(rings, k, p)[0] == Some(inner - 1));
        lemma_odd_row(rings, k - 1, s, t - 1, sh);
        let pn = sh + t - 1;
        assert(hex_neighbors(rings, k - 1, pn)[2] == Some(ring_start(k) + pn + s + 1));
        (k - 1, pn, 2)
    }
}

proof fn lemma_link_even_second(rings: int, k: int, p: int) -> (w: (int, int, int))
    requires
        1 <= rings,
        is_node(rings, k, p),
        k % 2 == 0,
        k >= 2,
    ensures
        links_back(rings, k, p, 1, w.0, w.1, w.2),
{
    let m = 1 + k / 2;
    let h = k / 2;
    assert(ring_len(k) == 6 * m);
    assert(ring_len(k - 1) == 6 * h);
    assert((k - 1 + 1) / 2 == h);
    assert(ring_start(k) == ring_start(k - 1) + ring_len(k - 1));
    assert(ring_start(k + 1) == ring_start(k) + ring_len(k));
    let (s, t, sm) = lemma_place(p, m);
    let sh = sm - s;
    lemma_even_row(rings, k, s, t, sh);
    assert(sh + s + t == p);
    assert(0 <= sh <= 5 * h);
    let me = ring_start(k) + p;
    let inner = ring_start(k - 1) + sh + t;
    if p + 1 == 6 * m {
        assert(hex_neighbors(rings, k, p)[1] == Some(ring_start(k - 1)));
        lemma_odd_start(rings, k - 1);
        (k - 1, 0, 2)
    } else if t == 0 {
        assert(hex_neighbors(rings, k, p)[1] == Some(ring_start(k) + p + 1));
        lemma_even_row(rings, k, s, 1, sh);
        let pn = sh + s + 1;
        assert(hex_neighbors(rings, k, pn)[0] == Some(ring_start(k) + pn - 1));
        (k, pn, 0)
    } else if t < h {
        assert(hex_neighbors(rings, k, p)[1] == Some(inner));
        lemma_odd_row(rings, k - 1, s, t, sh);
        let pn = sh + t;
        assert(hex_neighbors(rings, k - 1, pn)[1] == Some(ring_start(k) + pn + s));
        (k - 1, pn, 1)
    } else {
        assert(hex_neighbors(rings, k, p)[1] == Some(inner));
        assert(t == h);
        assert(s <= 4);
        assert(sh <= 4 * h);
        let pn = sh + h;
        assert(pn == (s + 1) * (m - 1));
        lemma_odd_row(rings, k - 1, s + 1, 0, pn);
        assert(hex_neighbors(rings, k - 1, pn)[1] == Some(ring_start(k) + pn + (s + 1 - 1)));
        (k - 1, pn, 1)
    }
}

proof fn lemma_link_even(rings: int, k: int, p: int, c: int) -> (w: (int, int, int))
    requires
        1 <= rings,
        is_node(rings, k, p),
        k % 2 == 0,
        k >= 2,
        0 <= c < 3,
        hex_neighbors(rings, k, p)[c] is Some,
    ensures
        links_back(rings, k, p, c, w.0, w.1, w.2),
{
    if c == 2 {
        lemma_link_even_outward(rings, k, p)
    } else if c == 0 {
        lemma_link_even_first(rings, k, p)
    } else {
        lemma_link_even_second(rings, k, p)
    }
}

/// Every neighbour that a node names is a node that names the node back.
pub proof fn lemma_neighbor_links_back(rings: int, k: int, p: int, c: int) -> (w: (int, int, int))
    requires
        1 <= rings,
        is_node(rings, k, p),
        0 <= c < 3,
        hex_neighbors(rings, k, p)[c] is Some,
    ensures
        links_back(rings, k, p, c, w.0, w.1, w.2),
{
    if k == 0 {
        lemma_link_ring_zero(rings, p, c)
    } else if k % 2 == 1 {
        lemma_link_odd(rings, k, p, c)
    } else {
        lemma_link_even(rings, k, p, c)
    }
}

/// No row names a neighbour twice.
pub proof fn lemma_row_distinct(rings: int, k: int, p: int)
    requires
        1 <= rings,
        is_node(rings, k, p),
    ensures
        hex_neighbors(rings, k, p).len() == 3,
        forall|c: int, d: int|
            0 <= c < d < 3 && hex_neighbors(rings, k, p)[c] is Some ==> #[trigger] hex_neighbors(
                rings,
                k,
                p,
            )[c] != #[trigger] hex_neighbors(rings, k, p)[d],
{
    let row = hex_neighbors(rings, k, p);
    lemma_ring_start_monotonic(0, k);
    assert(ring_start(k + 1) == ring_start(k) + ring_len(k));
    if k == 0 {
        assert(row[0] == Some((p + 5) % 6));
        assert(row[1] == Some((p + 1) % 6));
        assert(row[0] != row[1] && row[0] != row[2] && row[1] != row[2]);
    } else if k % 2 == 1 {
        let h = (k + 1) / 2;
        assert(ring_start(k) == ring_start(k - 1) + ring_len(k - 1));
        assert(ring_len(k - 1) == ring_len(k));
        assert(ring_len(k) == 6 * h);
        lemma_ring_start_monotonic(0, k - 1);
        if p == 0 {
            lemma_odd_start(rings, k);
        } else {
            let (q, u, qh) = lemma_place(p, h);
            lemma_odd_row(rings, k, q, u, qh);
        }
        assert(row[0] != row[1] && row[0] != row[2] && row[1] != row[2]);
    } else {
        let m = 1 + k / 2;
        let h = m - 1;
        assert(ring_start(k) == ring_start(k - 1) + ring_len(k - 1));
        assert(ring_len(k - 1) == 6 * h);
        assert(ring_len(k) == 6 * m);
        lemma_ring_start_monotonic(0, k - 1);
        let (s, t, sm) = lemma_place(p, m);
        let sh = sm - s;
        lemma_even_row(rings, k, s, t, sh);
        assert(sh + s + t == p);
        assert(0 <= sh <= 5 * h);
        assert(row[0] != row[1]);
        assert(row[2] is Some ==> row[0] != row[2] && row[1] != row[2]);
    }
}

/// The rows of the rings before ring `k` are as many as the nodes of those
/// rings.
pub proof fn lemma_rows_len(rings: int, k: int)
    requires
        0 <= k,
    ensures
        rows_before(rings, k).len() == ring_start(k),
    decreases k,
{
    if k > 0 {
        lemma_rows_len(rings, k - 1);
    }
}

/// The row of a node stands in the table at the node's id.
pub proof fn lemma_row_at(rings: int, rows: int, k: int, p: int)
    requires
        0 <= k < rows,
        0 <= p < ring_len(k),
    ensures
        ring_start(k) + p < rows_before(rings, rows).len(),
        rows_before(rings, rows)[ring_start(k) + p] == hex_neighbors(rings, k, p),
    decreases rows,
{
    lemma_rows_len(rings, rows);
    lemma_rows_len(rings, rows - 1);
    lemma_ring_start_monotonic(0, k);
    if k == rows - 1 {
    } else {
        lemma_row_at(rings, rows - 1, k, p);
        lemma_ring_start_monotonic(k + 1, rows - 1);
    }
}

/// The ring and the position in the ring of the node with id `id`.
pub proof fn lemma_coords_of(rows: int, id: int) -> (kp: (int, int))
    requires
        0 <= id < ring_start(rows),
    ensures
        0 <= kp.0 < rows,
        0 <= kp.1 < ring_len(kp.0),
        id == ring_start(kp.0) + kp.1,
    decreases rows,
{
    if rows <= 0 {
        (0, 0)
    } else if id >= ring_start(rows - 1) {
        (rows - 1, id - ring_start(rows - 1))
    } else {
        lemma_coords_of(rows - 1, id)
    }
}

/// The adjacency table of a hexagonal board describes a simple undirected
/// graph on the nodes of the board: it has a row of three entries for every
/// node, every neighbour named is a node and not the node itself, no row
/// names a neighbour twice, and whenever a node names a neighbour the
/// neighbour names the node.
pub proof fn lemma_hex_adjacency_is_simple(rings: int)
    requires
        1 <= rings,
    ensures
        hex_adjacency(rings).len() == node_count(rings),
        forall|i: int| 0 <= i < node_count(rings) ==> (#[trigger] hex_adjacency(rings)[i]).len() == 3,
        is_simple_graph(hex_adjacency(rings)),
{
    let rows = node_ring_count(rings);
    let table = hex_adjacency(rings);
    lemma_rows_len(rings, rows);
    lemma_node_count_is_ring_sum(rings);
    assert forall|i: int| 0 <= i < table.len() implies (#[trigger] table[i]).len() == 3 by {
        let (k, p) = lemma_coords_of(rows, i);
        lemma_row_at(rings, rows, k, p);
        lemma_row_distinct(rings, k, p);
    }
    assert forall|i: int, c: int| 0 <= i < table.len() && 0 <= c < table[i].len() implies match #[trigger] table[i][c] {
        Some(j) => 0 <= j < table.len() && j != i && names(table, j, i),
        None => true,
    } by {
        let (k, p) = lemma_coords_of(rows, i);
        lemma_row_at(rings, rows, k, p);
        lemma_hex_neighbors_in_range(rings, k, p);
        if table[i][c] is Some {
            let j = table[i][c]->0;
            assert(hex_neighbors(rings, k, p)[c] == Some(j));
            let (kn, pn, cn) = lemma_neighbor_links_back(rings, k, p, c);
            lemma_row_at(rings, rows, kn, pn);
            assert(table[j][cn] == Some(i));
        }
    }
    assert forall|i: int, c: int, d: int|
        0 <= i < table.len() && 0 <= c < d < table[i].len() && table[i][c] is Some
            implies #[trigger] table[i][c] != #[trigger] table[i][d] by {
        let (k, p) = lemma_coords_of(rows, i);
        lemma_row_at(rings, rows, k, p);
        lemma_row_distinct(rings, k, p);
    }
}

} // verus!
