//! Laws of the scoring: a segment text-identical to the target can never
//! be outranked, and a segment sharing no term with the target is never a
//! candidate.

use vstd::prelude::*;
use crate::text::corpus_terms;
use crate::tfidf::count_term;
use crate::tfidf::dot_of;
use crate::tfidf::dot_upto;
use crate::tfidf::lemma_count_pos_iff_contains;
use crate::tfidf::lemma_norm_pos;
use crate::tfidf::norm_sq_of;
use crate::tfidf::vocab_of;
use crate::tfidf::weight;
use crate::rank::is_candidate;

verus! {

proof fn lemma_sq_order(x: int, y: int)
    requires
        x >= 0,
        y >= 0,
        x * x >= y * y,
    ensures
        x >= y,
{
    if x < y {
        assert(x * x < y * y) by (nonlinear_arith)
            requires
                0 <= x < y,
        ;
    }
}

proof fn lemma_am_gm(u: int, v: int, w: int)
    requires
        u >= 0,
        v >= 0,
        w >= 0,
        u * v >= w * w,
    ensures
        u + v >= 2 * w,
{
    assert((u + v) * (u + v) == (u - v) * (u - v) + 4 * (u * v)) by (nonlinear_arith);
    assert((u - v) * (u - v) >= 0) by (nonlinear_arith);
    assert((u + v) * (u + v) >= (2 * w) * (2 * w)) by (nonlinear_arith)
        requires
            (u + v) * (u + v) >= (u - v) * (u - v) + 4 * (u * v),
            (u - v) * (u - v) >= 0,
            u * v >= w * w,
    ;
    lemma_sq_order(u + v, 2 * w);
}

proof fn lemma_cs_step(s: int, p: int, q: int, a: int, b: int)
    requires
        s >= 0,
        p >= 0,
        q >= 0,
        a >= 0,
        b >= 0,
        s * s <= p * q,
    ensures
        (s + a * b) * (s + a * b) <= (p + a * a) * (q + b * b),
{
    let x = a * b;
    let u = p * (b * b);
    let v = q * (a * a);
    assert(x >= 0) by (nonlinear_arith)
        requires
            x == a * b,
            a >= 0,
            b >= 0,
    ;
    assert(u >= 0 && v >= 0) by (nonlinear_arith)
        requires
            u == p * (b * b),
            v == q * (a * a),
            p >= 0,
            q >= 0,
    ;
    assert(u * v >= (s * x) * (s * x)) by (nonlinear_arith)
        requires
            u == p * (b * b),
            v == q * (a * a),
            x == a * b,
            s * s <= p * q,
            s >= 0,
            p >= 0,
            q >= 0,
    ;
    assert(s * x >= 0) by (nonlinear_arith)
        requires
            s >= 0,
            x >= 0,
    ;
    lemma_am_gm(u, v, s * x);
    assert((s + x) * (s + x) == s * s + 2 * (s * x) + x * x) by (nonlinear_arith);
    assert((p + a * a) * (q + b * b) == p * q + u + v + x * x) by (nonlinear_arith)
        requires
            u == p * (b * b),
            v == q * (a * a),
            x == a * b,
    ;
}

/// Cauchy-Schwarz over the weight vectors: the squared dot product of two
/// documents never exceeds the product of their squared norms.
pub proof fn lemma_cauchy_schwarz(dt: Seq<Seq<Seq<char>>>, t: int, i: int, k: int)
    ensures
        dot_upto(dt, t, i, k) * dot_upto(dt, t, i, k) <= dot_upto(dt, t, t, k) * dot_upto(
            dt,
            i,
            i,
            k,
        ),
    decreases k,
{
    if k <= 0 {
    } else {
        lemma_cauchy_schwarz(dt, t, i, k - 1);
        let x = vocab_of(dt)[k - 1];
        let a = weight(dt, t, x);
        let b = weight(dt, i, x);
        let s = dot_upto(dt, t, i, k - 1);
        let p = dot_upto(dt, t, t, k - 1);
        let q = dot_upto(dt, i, i, k - 1);
        lemma_cs_step(s as int, p as int, q as int, a as int, b as int);
        assert(dot_upto(dt, t, i, k) == s + a * b);
        assert(dot_upto(dt, t, t, k) == p + a * a);
        assert(dot_upto(dt, i, i, k) == q + b * b);
    }
}

proof fn lemma_equal_docs_dots(dt: Seq<Seq<Seq<char>>>, t: int, j: int, k: int)
    requires
        0 <= t < dt.len(),
        0 <= j < dt.len(),
        dt[j] == dt[t],
    ensures
        dot_upto(dt, t, j, k) == dot_upto(dt, t, t, k),
        dot_upto(dt, j, j, k) == dot_upto(dt, t, t, k),
    decreases k,
{
    if k > 0 {
        lemma_equal_docs_dots(dt, t, j, k - 1);
    }
}

/// Identity dominance: when another segment's document is term-identical
/// to the target's (and the target has at least one term), that segment is
/// a candidate and its exact score is the maximum over all candidates.
pub proof fn lemma_identity_dominance(segs: Seq<Seq<Seq<char>>>, t: int, j: int)
    requires
        0 <= t < segs.len(),
        0 <= j < segs.len(),
        j != t,
        corpus_terms(segs)[j] == corpus_terms(segs)[t],
        corpus_terms(segs)[t].len() > 0,
    ensures
        is_candidate(corpus_terms(segs), t, j),
        forall|i: int|
            is_candidate(corpus_terms(segs), t, i) ==> (dot_of(corpus_terms(segs), t, j)
                * dot_of(corpus_terms(segs), t, j)) * norm_sq_of(corpus_terms(segs), i)
                >= (dot_of(corpus_terms(segs), t, i) * dot_of(corpus_terms(segs), t, i))
                * norm_sq_of(corpus_terms(segs), j),
{
    let dt = corpus_terms(segs);
    let v = vocab_of(dt).len() as int;
    lemma_equal_docs_dots(dt, t, j, v);
    assert(dot_of(dt, t, j) == norm_sq_of(dt, t));
    assert(norm_sq_of(dt, j) == norm_sq_of(dt, t));
    lemma_norm_pos(dt, t);
    assert(is_candidate(dt, t, j));
    let nt = norm_sq_of(dt, t) as int;
    assert forall|i: int|
        is_candidate(dt, t, i) implies (dot_of(dt, t, j) * dot_of(dt, t, j)) * norm_sq_of(
        dt,
        i,
    ) >= (dot_of(dt, t, i) * dot_of(dt, t, i)) * norm_sq_of(dt, j) by {
        lemma_cauchy_schwarz(dt, t, i, v);
        let di = dot_of(dt, t, i) as int;
        let ni = norm_sq_of(dt, i) as int;
        assert(di * di <= nt * ni);
        assert((nt * nt) * ni >= (di * di) * nt) by (nonlinear_arith)
            requires
                di * di <= nt * ni,
                nt >= 0,
                ni >= 0,
        ;
    }
}

/// Disjoint exclusion: a segment sharing no term with the target has a
/// zero dot product and is never a candidate.
pub proof fn lemma_disjoint_exclusion(segs: Seq<Seq<Seq<char>>>, t: int, i: int)
    requires
        0 <= t < segs.len(),
        0 <= i < segs.len(),
        forall|x: Seq<char>|
            corpus_terms(segs)[i].contains(x) ==> !corpus_terms(segs)[t].contains(x),
    ensures
        dot_of(corpus_terms(segs), t, i) == 0,
        !is_candidate(corpus_terms(segs), t, i),
{
    let dt = corpus_terms(segs);
    lemma_disjoint_dot_zero(dt, t, i, vocab_of(dt).len() as int);
}

proof fn lemma_disjoint_dot_zero(dt: Seq<Seq<Seq<char>>>, t: int, i: int, k: int)
    requires
        0 <= t < dt.len(),
        0 <= i < dt.len(),
        forall|x: Seq<char>| dt[i].contains(x) ==> !dt[t].contains(x),
    ensures
        dot_upto(dt, t, i, k) == 0,
    decreases k,
{
    if k > 0 {
        lemma_disjoint_dot_zero(dt, t, i, k - 1);
        let x = vocab_of(dt)[k - 1];
        lemma_count_pos_iff_contains(dt[t], x);
        lemma_count_pos_iff_contains(dt[i], x);
        let a = count_term(dt[t], x);
        let b = count_term(dt[i], x);
        assert(a == 0 || b == 0);
        assert(weight(dt, t, x) * weight(dt, i, x) == 0) by (nonlinear_arith)
            requires
                weight(dt, t, x) == 0 || weight(dt, i, x) == 0,
        ;
    }
}

} // verus!
