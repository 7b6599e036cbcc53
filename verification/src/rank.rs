//! The similarity ranker: scores the target document against every other
//! one by cosine similarity and keeps the best five candidates.
//!
//! All vectors carry integer weights, so every cosine comparison is done
//! exactly: candidate `a` outranks candidate `b` exactly when
//! `dot(t,a)^2 / norm_sq(a) >= dot(t,b)^2 / norm_sq(b)` as rationals (the
//! target's own norm is a common positive factor and cancels).

use vstd::prelude::*;
use vstd::arithmetic::div_mod::lemma_fundamental_div_mod;
use vstd::arithmetic::div_mod::lemma_mod_division_less_than_divisor;
use crate::tfidf::TfidfMatrix;
use crate::tfidf::MAX_CORPUS_TERMS;
use crate::tfidf::dot_of;
use crate::tfidf::dot_upto;
use crate::tfidf::norm_sq_of;
use crate::tfidf::vocab_of;
use crate::tfidf::flat_terms;
use crate::tfidf::dedup_terms;
use crate::tfidf::lemma_dedup_le_len;
use crate::tfidf::lemma_dot_lt;
use crate::tfidf::lemma_dot_zero_if_norm_zero;

verus! {

/// One ranked candidate: its segment index, its exact dot product with the
/// target's weight vector, and its own squared norm. Together with the
/// target's squared norm these determine the cosine score exactly:
/// `score = dot / sqrt(target_norm_sq * norm_sq)`.
#[derive(Clone, Copy, PartialEq, Eq, Structural, Debug)]
pub struct Candidate {
    /// Index of the candidate segment.
    pub index: usize,
    /// Dot product of the candidate's and the target's weight vectors.
    pub dot: u128,
    /// Squared norm of the candidate's weight vector.
    pub norm_sq: u128,
}

/// Document `i` is a candidate against target `t`: distinct from the
/// target and with a strictly positive dot product (which also rules out
/// degenerate zero vectors on either side).
pub open spec fn is_candidate(dt: Seq<Seq<Seq<char>>>, t: int, i: int) -> bool {
    0 <= i < dt.len() && i != t && dot_of(dt, t, i) > 0
}

/// The candidate record `e` faithfully describes document `e.index`.
pub open spec fn cand_wf(dt: Seq<Seq<Seq<char>>>, t: int, e: Candidate) -> bool {
    &&& is_candidate(dt, t, e.index as int)
    &&& e.dot == dot_of(dt, t, e.index as int)
    &&& e.norm_sq == norm_sq_of(dt, e.index as int)
    &&& 0 < e.dot < 0x1_0000_0000_0000_0000u128
    &&& e.norm_sq >= 1
}

/// Candidate `a` scores at least as high as candidate `b`: the exact
/// comparison of the rational squared scores `dot^2 / norm_sq`.
pub open spec fn ranks_geq(a: Candidate, b: Candidate) -> bool {
    (a.dot * a.dot) * b.norm_sq >= (b.dot * b.dot) * a.norm_sq
}

/// Scores never increase along the sequence.
pub open spec fn sorted_desc(s: Seq<Candidate>) -> bool {
    forall|i: int, j: int| 0 <= i < j < s.len() ==> ranks_geq(s[i], s[j])
}

/// Number of candidates among the first `n` documents.
pub open spec fn cand_count(dt: Seq<Seq<Seq<char>>>, t: int, n: int) -> nat
    decreases n,
{
    if n <= 0 {
        0
    } else {
        cand_count(dt, t, n - 1) + if is_candidate(dt, t, n - 1) {
            1nat
        } else {
            0nat
        }
    }
}

/// Some entry of `s` carries segment index `i`.
pub open spec fn has_index(s: Seq<Candidate>, i: int) -> bool {
    exists|k: int| 0 <= k < s.len() && (#[trigger] s[k]).index == i
}

/// Exact comparison `a / b >= c / d` of two non-negative rationals, by a
/// Euclidean descent that never multiplies, so nothing overflows.
fn frac_geq(a: u128, b: u128, c: u128, d: u128) -> (r: bool)
    requires
        b >= 1,
        d >= 1,
    ensures
        r == (a * d >= c * b),
{
    let mut x = a;
    let mut y = b;
    let mut z = c;
    let mut w = d;
    loop
        invariant
            y >= 1,
            w >= 1,
            (x * w > z * y) == (a * d > c * b),
            (x * w == z * y) == (a * d == c * b),
        decreases y + w,
    {
        let q1 = x / y;
        let q2 = z / w;
        let r1 = x % y;
        let r2 = z % w;
        proof {
            lemma_fundamental_div_mod(x as int, y as int);
            lemma_fundamental_div_mod(z as int, w as int);
            lemma_mod_division_less_than_divisor(x as int, y as int);
            lemma_mod_division_less_than_divisor(z as int, w as int);
        }
        if q1 != q2 {
            proof {
                if q1 > q2 {
                    assert(x * w > z * y) by (nonlinear_arith)
                        requires
                            x == y * q1 + r1,
                            z == w * q2 + r2,
                            0 <= r1 < y,
                            0 <= r2 < w,
                            y >= 1,
                            w >= 1,
                            q1 > q2,
                            q1 >= 0,
                            q2 >= 0,
                    ;
                } else {
                    assert(z * y > x * w) by (nonlinear_arith)
                        requires
                            x == y * q1 + r1,
                            z == w * q2 + r2,
                            0 <= r1 < y,
                            0 <= r2 < w,
                            y >= 1,
                            w >= 1,
                            q2 > q1,
                            q1 >= 0,
                            q2 >= 0,
                    ;
                }
            }
            return q1 > q2;
        }
        proof {
            assert(x * w - z * y == r1 * w - r2 * y) by (nonlinear_arith)
                requires
                    x == y * q1 + r1,
                    z == w * q2 + r2,
                    q1 == q2,
            ;
        }
        if r1 == 0 && r2 == 0 {
            proof {
                assert(r1 * w == 0 && r2 * y == 0) by (nonlinear_arith)
                    requires
                        r1 == 0,
                        r2 == 0,
                ;
                assert(x * w == z * y);
            }
            return true;
        }
        if r1 == 0 {
            proof {
                assert(r1 * w == 0) by (nonlinear_arith)
                    requires
                        r1 == 0,
                ;
                assert(r2 * y > 0) by (nonlinear_arith)
                    requires
                        r2 >= 1,
                        y >= 1,
                ;
                assert(x * w < z * y);
            }
            return false;
        }
        if r2 == 0 {
            proof {
                assert(r2 * y == 0) by (nonlinear_arith)
                    requires
                        r2 == 0,
                ;
                assert(r1 * w > 0) by (nonlinear_arith)
                    requires
                        r1 >= 1,
                        w >= 1,
                ;
                assert(x * w > z * y);
            }
            return true;
        }
        proof {
            assert(w * r1 - y * r2 == r1 * w - r2 * y) by (nonlinear_arith);
        }
        let x2 = w;
        let y2 = r2;
        let z2 = y;
        let w2 = r1;
        x = x2;
        y = y2;
        z = z2;
        w = w2;
    }
}

/// Exact test: does candidate `x` score at least as high as candidate `y`?
fn rank_geq_exec(x: &Candidate, y: &Candidate) -> (r: bool)
    requires
        x.dot < 0x1_0000_0000_0000_0000u128,
        y.dot < 0x1_0000_0000_0000_0000u128,
        x.norm_sq >= 1,
        y.norm_sq >= 1,
    ensures
        r == ranks_geq(*x, *y),
{
    proof {
        assert(y.dot * y.dot <= 0xffff_ffff_ffff_ffffu128 * 0xffff_ffff_ffff_ffffu128)
            by (nonlinear_arith)
            requires
                0 <= y.dot <= 0xffff_ffff_ffff_ffffu128,
        ;
        assert(x.dot * x.dot <= 0xffff_ffff_ffff_ffffu128 * 0xffff_ffff_ffff_ffffu128)
            by (nonlinear_arith)
            requires
                0 <= x.dot <= 0xffff_ffff_ffff_ffffu128,
        ;
    }
    let a = x.dot * x.dot;
    let c = y.dot * y.dot;
    frac_geq(a, x.norm_sq, c, y.norm_sq)
}

/// The exact score order is transitive across positive candidates.
proof fn lemma_ranks_geq_trans(a: Candidate, b: Candidate, c: Candidate)
    requires
        ranks_geq(a, b),
        ranks_geq(b, c),
        b.dot >= 1,
        a.norm_sq >= 1,
        b.norm_sq >= 1,
        c.norm_sq >= 1,
    ensures
        ranks_geq(a, c),
{
    let pa = a.dot * a.dot;
    let pb = b.dot * b.dot;
    let pc = c.dot * c.dot;
    let na = a.norm_sq;
    let nb = b.norm_sq;
    let nc = c.norm_sq;
    assert(pb >= 1) by (nonlinear_arith)
        requires
            b.dot >= 1,
            pb == b.dot * b.dot,
    ;
    assert((pa * nb) * (pb * nc) >= (pb * na) * (pc * nb)) by (nonlinear_arith)
        requires
            pa * nb >= pb * na,
            pb * nc >= pc * nb,
            pb * na >= 0,
            pc * nb >= 0,
    ;
    assert((pa * nb) * (pb * nc) == (pb * nb) * (pa * nc)) by (nonlinear_arith);
    assert((pb * na) * (pc * nb) == (pb * nb) * (pc * na)) by (nonlinear_arith);
    assert(pa * nc >= pc * na) by (nonlinear_arith)
        requires
            (pb * nb) * (pa * nc) >= (pb * nb) * (pc * na),
            pb >= 1,
            nb >= 1,
    ;
}

/// Dot product of the target's and one candidate's weight rows.
fn dot_row(m: &TfidfMatrix, t: usize, i: usize) -> (dot: u128)
    requires
        m.wf(),
        (t as int) < m.docs@.len(),
        (i as int) < m.docs@.len(),
    ensures
        dot == dot_of(m.docs@, t as int, i as int),
{
    let ghost dt = m.docs@;
    let ghost voc = vocab_of(dt);
    let vlen = m.vocab.len();
    proof {
        lemma_dedup_le_len(flat_terms(dt), Seq::empty());
        assert(voc.len() <= MAX_CORPUS_TERMS);
        assert(m.vocab.deep_view().len() == m.vocab@.len());
    }
    let mut sum: u128 = 0;
    let mut k: usize = 0;
    while k < vlen
        invariant
            k <= vlen,
            m.wf(),
            dt == m.docs@,
            voc == vocab_of(dt),
            vlen == voc.len(),
            vlen <= MAX_CORPUS_TERMS,
            (t as int) < dt.len(),
            (i as int) < dt.len(),
            sum == dot_upto(dt, t as int, i as int, k as int),
            sum <= k * 0x1_0000_0000_0000_0000u128,
        decreases vlen - k,
    {
        let wt = m.weights[t][k];
        let wi = m.weights[i][k];
        proof {
            assert(wt == crate::tfidf::weight(dt, t as int, voc[k as int]));
            assert(wi == crate::tfidf::weight(dt, i as int, voc[k as int]));
            assert((wt as u128) * (wi as u128) < 0x1_0000_0000_0000_0000u128)
                by (nonlinear_arith)
                requires
                    wt < 0x1_0000_0000u64,
                    wi < 0x1_0000_0000u64,
            ;
            assert(sum + (wt as u128) * (wi as u128) <= (k + 1) * 0x1_0000_0000_0000_0000u128)
                by (nonlinear_arith)
                requires
                    sum <= k * 0x1_0000_0000_0000_0000u128,
                    (wt as u128) * (wi as u128) < 0x1_0000_0000_0000_0000u128,
            ;
            assert((k + 1) * 0x1_0000_0000_0000_0000u128 <= 65537 * 0x1_0000_0000_0000_0000u128)
                by (nonlinear_arith)
                requires
                    k + 1 <= 65537,
            ;
        }
        sum = sum + (wt as u128) * (wi as u128);
        k = k + 1;
    }
    sum
}

/// The ranked candidate list for one target: every other document with a
/// positive similarity, in descending exact score order, cut to the best
/// five. Everything left out scores no higher than anything kept.
pub fn rank_candidates(m: &TfidfMatrix, target: usize) -> (res: Vec<Candidate>)
    requires
        m.wf(),
        (target as int) < m.docs@.len(),
    ensures
        ({
            let dt = m.docs@;
            let t = target as int;
            let nc = cand_count(dt, t, dt.len() as int);
            &&& res@.len() == (if nc < 5 {
                nc
            } else {
                5nat
            })
            &&& forall|k: int| 0 <= k < res@.len() ==> cand_wf(dt, t, #[trigger] res@[k])
            &&& sorted_desc(res@)
            &&& forall|k1: int, k2: int|
                0 <= k1 < k2 < res@.len() ==> res@[k1].index != res@[k2].index
            &&& forall|i: int, k: int|
                is_candidate(dt, t, i) && !has_index(res@, i) && 0 <= k < res@.len()
                    ==> (res@[k].dot * res@[k].dot) * norm_sq_of(dt, i) >= (dot_of(dt, t, i)
                    * dot_of(dt, t, i)) * res@[k].norm_sq
        }),
{
    let ghost dt = m.docs@;
    let ghost t = target as int;
    let n = m.weights.len();
    let mut arr: Vec<Candidate> = Vec::new();
    let mut i: usize = 0;
    while i < n
        invariant
            i <= n,
            m.wf(),
            dt == m.docs@,
            t == target as int,
            t < dt.len(),
            n == dt.len(),
            arr@.len() == cand_count(dt, t, i as int),
            forall|k: int| 0 <= k < arr@.len() ==> cand_wf(dt, t, #[trigger] arr@[k]),
            forall|k: int| 0 <= k < arr@.len() ==> (#[trigger] arr@[k]).index < i,
            forall|k1: int, k2: int|
                0 <= k1 < k2 < arr@.len() ==> arr@[k1].index != arr@[k2].index,
            forall|q: int| 0 <= q < i ==> (is_candidate(dt, t, q) <==> has_index(arr@, q)),
        decreases n - i,
    {
        if i != target {
            let dot = dot_row(m, target, i);
            if dot > 0 {
                proof {
                    lemma_dot_lt(dt, t, i as int);
                    lemma_dot_zero_if_norm_zero(dt, t, i as int, vocab_of(dt).len() as int);
                    assert(norm_sq_of(dt, i as int) > 0);
                }
                let e = Candidate { index: i, dot, norm_sq: m.norm_sq[i] };
                let ghost pre = arr@;
                arr.push(e);
                proof {
                    assert(arr@ == pre.push(e));
                    assert(arr@[pre.len() as int] == e);
                    assert forall|q: int|
                        0 <= q < i + 1 implies (is_candidate(dt, t, q) <==> has_index(
                        arr@,
                        q,
                    )) by {
                        if q == i as int {
                            assert(arr@[pre.len() as int].index == q);
                            assert(has_index(arr@, q));
                        } else {
                            if has_index(pre, q) {
                                let w = choose|w: int| 0 <= w < pre.len() && pre[w].index == q;
                                assert(arr@[w].index == q);
                                assert(has_index(arr@, q));
                            }
                            if has_index(arr@, q) {
                                let w = choose|w: int|
                                    0 <= w < arr@.len() && arr@[w].index == q;
                                assert(w < pre.len());
                                assert(pre[w].index == q);
                                assert(has_index(pre, q));
                            }
                        }
                    }
                }
            } else {
                proof {
                    assert forall|q: int|
                        0 <= q < i + 1 implies (is_candidate(dt, t, q) <==> has_index(
                        arr@,
                        q,
                    )) by {}
                }
            }
        }
        i = i + 1;
    }
    let ghost nc = cand_count(dt, t, dt.len() as int);
    // Sort by descending exact score: insertion sort.
    let mut s: usize = 1;
    while s < arr.len()
        invariant
            1 <= s,
            arr@.len() == nc,
            forall|k: int| 0 <= k < arr@.len() ==> cand_wf(dt, t, #[trigger] arr@[k]),
            forall|k1: int, k2: int|
                0 <= k1 < k2 < arr@.len() ==> arr@[k1].index != arr@[k2].index,
            forall|q: int| is_candidate(dt, t, q) ==> has_index(arr@, q),
            sorted_desc(
                arr@.take(
                    if (s as int) <= arr@.len() {
                        s as int
                    } else {
                        arr@.len() as int
                    },
                ),
            ),
        decreases arr@.len() - s,
    {
        proof {
            assert forall|a: int, b: int| 0 <= a < b <= s && b != s implies ranks_geq(
                arr@[a],
                arr@[b],
            ) by {
                assert(arr@.take(s as int)[a] == arr@[a]);
                assert(arr@.take(s as int)[b] == arr@[b]);
            }
        }
        let mut j: usize = s;
        while j > 0 && !rank_geq_exec(&arr[j - 1], &arr[j])
            invariant
                0 <= j <= s < arr@.len(),
                arr@.len() == nc,
                forall|k: int| 0 <= k < arr@.len() ==> cand_wf(dt, t, #[trigger] arr@[k]),
                forall|k1: int, k2: int|
                    0 <= k1 < k2 < arr@.len() ==> arr@[k1].index != arr@[k2].index,
                forall|q: int| is_candidate(dt, t, q) ==> has_index(arr@, q),
                forall|a: int, b: int|
                    0 <= a < b <= s && b != j ==> ranks_geq(arr@[a], arr@[b]),
            decreases j,
        {
            let ghost pre = arr@;
            let tmp1 = arr[j - 1];
            let tmp2 = arr[j];
            arr[j - 1] = tmp2;
            arr[j] = tmp1;
            proof {
                assert(arr@ == pre.update(j - 1, tmp2).update(j as int, tmp1));
                assert forall|k1: int, k2: int|
                    0 <= k1 < k2 < arr@.len() implies arr@[k1].index != arr@[k2].index by {
                    let m1 = if k1 == j - 1 {
                        j as int
                    } else if k1 == j {
                        j - 1
                    } else {
                        k1
                    };
                    let m2 = if k2 == j - 1 {
                        j as int
                    } else if k2 == j {
                        j - 1
                    } else {
                        k2
                    };
                    assert(arr@[k1] == pre[m1] && arr@[k2] == pre[m2]);
                }
                assert forall|q: int| is_candidate(dt, t, q) implies has_index(arr@, q) by {
                    let w = choose|w: int| 0 <= w < pre.len() && pre[w].index == q;
                    let w2 = if w == j - 1 {
                        j as int
                    } else if w == j {
                        j - 1
                    } else {
                        w
                    };
                    assert(arr@[w2].index == q);
                }
                assert forall|a: int, b: int|
                    0 <= a < b <= s && b != j - 1 implies ranks_geq(arr@[a], arr@[b]) by {
                    if b == j {
                        if a == j - 1 {
                            assert(arr@[a] == pre[j as int] && arr@[b] == pre[j - 1]);
                        } else {
                            assert(arr@[a] == pre[a] && arr@[b] == pre[j - 1]);
                            assert(ranks_geq(pre[a], pre[j - 1]));
                        }
                    } else if a == j - 1 {
                        assert(arr@[a] == pre[j as int] && arr@[b] == pre[b]);
                        assert(ranks_geq(pre[j as int], pre[b]));
                    } else if a == j {
                        assert(arr@[a] == pre[j - 1] && arr@[b] == pre[b]);
                        assert(ranks_geq(pre[j - 1], pre[b]));
                    } else {
                        assert(arr@[a] == pre[a] && arr@[b] == pre[b]);
                    }
                }
            }
            j = j - 1;
        }
        proof {
            assert forall|a: int, b: int|
                0 <= a < b <= s implies ranks_geq(arr@[a], arr@[b]) by {
                if b == j {
                    assert(j > 0);
                    assert(ranks_geq(arr@[j - 1], arr@[j as int]));
                    if a < j - 1 {
                        assert(ranks_geq(arr@[a], arr@[j - 1]));
                        lemma_ranks_geq_trans(arr@[a], arr@[j - 1], arr@[j as int]);
                    }
                }
            }
            assert(sorted_desc(arr@.take(s + 1))) by {
                assert forall|a: int, b: int|
                    0 <= a < b < s + 1 implies ranks_geq(
                    #[trigger] arr@.take(s + 1)[a],
                    #[trigger] arr@.take(s + 1)[b],
                ) by {
                    assert(arr@.take(s + 1)[a] == arr@[a]);
                    assert(arr@.take(s + 1)[b] == arr@[b]);
                }
            }
        }
        s = s + 1;
    }
    proof {
        assert(arr@.take(arr@.len() as int) =~= arr@);
        assert(sorted_desc(arr@));
    }
    let ghost full = arr@;
    if arr.len() > 5 {
        arr.truncate(5);
        proof {
            assert(arr@ == full.subrange(0, 5));
        }
    }
    proof {
        assert forall|i2: int, k: int|
            is_candidate(dt, t, i2) && !has_index(arr@, i2) && 0 <= k < arr@.len()
                implies (arr@[k].dot * arr@[k].dot) * norm_sq_of(dt, i2) >= (dot_of(dt, t, i2)
                * dot_of(dt, t, i2)) * arr@[k].norm_sq by {
            assert(has_index(full, i2));
            let p = choose|p: int| 0 <= p < full.len() && full[p].index == i2;
            assert(p >= arr@.len()) by {
                if p < arr@.len() {
                    assert(arr@[p].index == i2);
                }
            }
            assert(ranks_geq(full[k], full[p]));
            assert(arr@[k] == full[k]);
            assert(cand_wf(dt, t, full[p]));
            assert(full[p].dot == dot_of(dt, t, i2));
            assert(full[p].norm_sq == norm_sq_of(dt, i2));
        }
    }
    arr
}

} // verus!
