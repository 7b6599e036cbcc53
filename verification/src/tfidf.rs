//! The vectorizer: a shared vocabulary over all documents and one smoothed
//! tf-idf weight vector per document, in exact fixed-point integer
//! arithmetic (every weight carries [`SCALE`] fractional steps).

use vstd::prelude::*;
use vstd::arithmetic::power2::pow2;
use vstd::arithmetic::power2::lemma_pow2_strictly_increases;
use vstd::arithmetic::power2::lemma2_to64;
use vstd::arithmetic::div_mod::lemma_fundamental_div_mod;
use crate::text::split_terms;

verus! {

/// Fixed-point scale of the idf factor: one unit stands for `1 / SCALE`.
pub const SCALE: u64 = 1024;

/// `ln(2) * SCALE`, rounded to the nearest integer.
pub const LN2_FP: u64 = 710;

/// Largest corpus, counted in terms over all documents, that the exact
/// integer scoring accepts; beyond it the dot products could no longer be
/// squared exactly in 128 bits.
pub const MAX_CORPUS_TERMS: usize = 65536;

/// Largest value [`idf_fp`] can take for a corpus of at most `2^64 - 1`
/// documents.
pub const IDF_MAX: u64 = 47173;

/// The term sequences of a corpus of documents.
pub open spec fn terms_of_docs(docs: Seq<Seq<char>>) -> Seq<Seq<Seq<char>>> {
    docs.map(|i: int, d: Seq<char>| split_terms(d))
}

/// Number of occurrences of term `x` in the term sequence `ts`.
pub open spec fn count_term(ts: Seq<Seq<char>>, x: Seq<char>) -> nat
    decreases ts.len(),
{
    if ts.len() == 0 {
        0
    } else {
        count_term(ts.drop_last(), x) + if ts.last() == x {
            1nat
        } else {
            0nat
        }
    }
}

/// Number of documents of the corpus `dt` whose terms contain `x`.
pub open spec fn df_count(dt: Seq<Seq<Seq<char>>>, x: Seq<char>) -> nat
    decreases dt.len(),
{
    if dt.len() == 0 {
        0
    } else {
        df_count(dt.drop_last(), x) + if count_term(dt.last(), x) > 0 {
            1nat
        } else {
            0nat
        }
    }
}

/// All terms of the corpus, in document order, then term order.
pub open spec fn flat_terms(dt: Seq<Seq<Seq<char>>>) -> Seq<Seq<char>>
    decreases dt.len(),
{
    if dt.len() == 0 {
        Seq::empty()
    } else {
        flat_terms(dt.drop_last()) + dt.last()
    }
}

/// First-occurrence deduplication of `s`, given the terms already `seen`.
pub open spec fn dedup_terms(s: Seq<Seq<char>>, seen: Seq<Seq<char>>) -> Seq<Seq<char>>
    decreases s.len(),
{
    if s.len() == 0 {
        Seq::empty()
    } else if seen.contains(s[0]) {
        dedup_terms(s.drop_first(), seen)
    } else {
        seq![s[0]] + dedup_terms(s.drop_first(), seen.push(s[0]))
    }
}

/// The corpus vocabulary: its distinct terms, in first-occurrence order.
pub open spec fn vocab_of(dt: Seq<Seq<Seq<char>>>) -> Seq<Seq<char>> {
    dedup_terms(flat_terms(dt), Seq::empty())
}

/// No term appears twice.
pub open spec fn distinct_terms(vs: Seq<Seq<char>>) -> bool {
    forall|k1: int, k2: int| 0 <= k1 < k2 < vs.len() ==> vs[k1] != vs[k2]
}

/// Floor of the base-two logarithm.
pub open spec fn ilog2(n: nat) -> nat
    decreases n,
{
    if n < 2 {
        0
    } else {
        1 + ilog2(n / 2)
    }
}

/// Fixed-point natural logarithm of the ratio `a / b`, for `1 <= b <= a`:
/// the power-of-two part of the ratio exactly, the rest by linear
/// interpolation within its octave.
pub open spec fn ln_fp(a: nat, b: nat) -> nat {
    let k = ilog2(a / b);
    let p = b * pow2(k);
    let frac = if p == 0 || a < p {
        0
    } else {
        ((a - p) * LN2_FP) / (p as int)
    };
    (k * LN2_FP + frac) as nat
}

/// The smoothed inverse document frequency, in fixed point: the integer
/// image of `ln((1 + n) / (1 + d)) + 1`, scaled by [`SCALE`]. Always at
/// least [`SCALE`], so every present term keeps a positive weight.
pub open spec fn idf_fp(n: nat, d: nat) -> nat {
    (SCALE + ln_fp(n + 1, d + 1)) as nat
}

/// The tf-idf weight of term `x` in document `i` of corpus `dt`.
pub open spec fn weight(dt: Seq<Seq<Seq<char>>>, i: int, x: Seq<char>) -> nat {
    count_term(dt[i], x) * idf_fp(dt.len(), df_count(dt, x))
}

/// Partial dot product of the weight vectors of documents `t` and `i`,
/// over the first `k` vocabulary terms.
pub open spec fn dot_upto(dt: Seq<Seq<Seq<char>>>, t: int, i: int, k: int) -> nat
    decreases k,
{
    if k <= 0 {
        0
    } else {
        dot_upto(dt, t, i, k - 1) + weight(dt, t, vocab_of(dt)[k - 1]) * weight(
            dt,
            i,
            vocab_of(dt)[k - 1],
        )
    }
}

/// The full dot product of the weight vectors of documents `t` and `i`.
pub open spec fn dot_of(dt: Seq<Seq<Seq<char>>>, t: int, i: int) -> nat {
    dot_upto(dt, t, i, vocab_of(dt).len() as int)
}

/// The squared Euclidean norm of document `i`'s weight vector.
pub open spec fn norm_sq_of(dt: Seq<Seq<Seq<char>>>, i: int) -> nat {
    dot_of(dt, i, i)
}

// ---------------------------------------------------------------------------
// Lemmas about counting and the vocabulary.
// ---------------------------------------------------------------------------

/// A term occurs in a sequence exactly when its count there is positive.
pub proof fn lemma_count_pos_iff_contains(ts: Seq<Seq<char>>, x: Seq<char>)
    ensures
        count_term(ts, x) > 0 <==> ts.contains(x),
    decreases ts.len(),
{
    if ts.len() > 0 {
        lemma_count_pos_iff_contains(ts.drop_last(), x);
        if ts.contains(x) && ts.last() != x {
            let w = choose|w: int| 0 <= w < ts.len() && ts[w] == x;
            assert(ts.drop_last()[w] == x);
            assert(ts.drop_last().contains(x));
        }
        if ts.drop_last().contains(x) {
            let w = choose|w: int| 0 <= w < ts.len() - 1 && ts.drop_last()[w] == x;
            assert(ts[w] == x);
        }
    }
}

/// A count never exceeds the sequence's length.
pub proof fn lemma_count_le_len(ts: Seq<Seq<char>>, x: Seq<char>)
    ensures
        count_term(ts, x) <= ts.len(),
    decreases ts.len(),
{
    if ts.len() > 0 {
        lemma_count_le_len(ts.drop_last(), x);
    }
}

/// In a sequence of distinct terms, every count is at most one.
pub proof fn lemma_distinct_count_le_one(vs: Seq<Seq<char>>, x: Seq<char>)
    requires
        distinct_terms(vs),
    ensures
        count_term(vs, x) <= 1,
    decreases vs.len(),
{
    if vs.len() > 0 {
        assert(distinct_terms(vs.drop_last())) by {
            assert(forall|k1: int, k2: int|
                0 <= k1 < k2 < vs.len() - 1 ==> vs.drop_last()[k1] == vs[k1] && vs.drop_last()[k2]
                    == vs[k2]);
        }
        lemma_distinct_count_le_one(vs.drop_last(), x);
        if vs.last() == x {
            lemma_count_pos_iff_contains(vs.drop_last(), x);
            if vs.drop_last().contains(x) {
                let w = choose|w: int| 0 <= w < vs.len() - 1 && vs.drop_last()[w] == x;
                assert(vs[w] == vs[vs.len() - 1]);
                assert(false);
            }
        }
    }
}

/// What the deduplication yields is distinct and avoids everything seen.
pub proof fn lemma_dedup_distinct(s: Seq<Seq<char>>, seen: Seq<Seq<char>>)
    ensures
        distinct_terms(dedup_terms(s, seen)),
        forall|x: Seq<char>| seen.contains(x) ==> !dedup_terms(s, seen).contains(x),
    decreases s.len(),
{
    if s.len() > 0 {
        let d = dedup_terms(s, seen);
        if seen.contains(s[0]) {
            lemma_dedup_distinct(s.drop_first(), seen);
        } else {
            lemma_dedup_distinct(s.drop_first(), seen.push(s[0]));
            let rest = dedup_terms(s.drop_first(), seen.push(s[0]));
            assert(d == seq![s[0]] + rest);
            assert(seen.push(s[0]).contains(s[0])) by {
                assert(seen.push(s[0])[seen.len() as int] == s[0]);
            }
            assert(!rest.contains(s[0]));
            assert forall|k1: int, k2: int| 0 <= k1 < k2 < d.len() implies d[k1] != d[k2] by {
                if k1 == 0 {
                    assert(d[k2] == rest[k2 - 1]);
                    if d[k2] == s[0] {
                        assert(rest.contains(s[0]));
                    }
                } else {
                    assert(d[k1] == rest[k1 - 1] && d[k2] == rest[k2 - 1]);
                }
            }
            assert forall|x: Seq<char>| seen.contains(x) implies !d.contains(x) by {
                assert(seen.push(x).len() >= 0);
                if d.contains(x) {
                    let w = choose|w: int| 0 <= w < d.len() && d[w] == x;
                    if w == 0 {
                        assert(s[0] == x);
                    } else {
                        assert(rest[w - 1] == x);
                        assert(rest.contains(x));
                        assert(seen.push(s[0]).contains(x)) by {
                            let v = choose|v: int| 0 <= v < seen.len() && seen[v] == x;
                            assert(seen.push(s[0])[v] == x);
                        }
                        assert(false);
                    }
                }
            }
        }
    }
}

/// Every term of `s` is either already seen or in the deduplication.
pub proof fn lemma_dedup_covers(s: Seq<Seq<char>>, seen: Seq<Seq<char>>)
    ensures
        forall|x: Seq<char>|
            s.contains(x) ==> seen.contains(x) || dedup_terms(s, seen).contains(x),
    decreases s.len(),
{
    if s.len() > 0 {
        let d = dedup_terms(s, seen);
        assert forall|x: Seq<char>| s.contains(x) implies seen.contains(x) || d.contains(x) by {
            if seen.contains(s[0]) {
                lemma_dedup_covers(s.drop_first(), seen);
                if x != s[0] {
                    let w = choose|w: int| 0 <= w < s.len() && s[w] == x;
                    assert(s.drop_first()[w - 1] == x);
                    assert(s.drop_first().contains(x));
                }
            } else {
                lemma_dedup_covers(s.drop_first(), seen.push(s[0]));
                let rest = dedup_terms(s.drop_first(), seen.push(s[0]));
                assert(d == seq![s[0]] + rest);
                if x == s[0] {
                    assert(d[0] == x);
                    assert(d.contains(x));
                } else {
                    let w = choose|w: int| 0 <= w < s.len() && s[w] == x;
                    assert(s.drop_first()[w - 1] == x);
                    assert(s.drop_first().contains(x));
                    if seen.push(s[0]).contains(x) {
                        let v = choose|v: int|
                            0 <= v < seen.len() + 1 && seen.push(s[0])[v] == x;
                        assert(seen[v] == x);
                        assert(seen.contains(x));
                    } else {
                        if rest.contains(x) {
                            let v = choose|v: int| 0 <= v < rest.len() && rest[v] == x;
                            assert(d[v + 1] == x);
                            assert(d.contains(x));
                        }
                    }
                }
            }
        }
    }
}

/// A deduplication is never longer than its input.
pub proof fn lemma_dedup_le_len(s: Seq<Seq<char>>, seen: Seq<Seq<char>>)
    ensures
        dedup_terms(s, seen).len() <= s.len(),
    decreases s.len(),
{
    if s.len() > 0 {
        if seen.contains(s[0]) {
            lemma_dedup_le_len(s.drop_first(), seen);
        } else {
            lemma_dedup_le_len(s.drop_first(), seen.push(s[0]));
        }
    }
}

/// Concatenating corpora concatenates their flattened terms.
pub proof fn lemma_flat_concat(a: Seq<Seq<Seq<char>>>, b: Seq<Seq<Seq<char>>>)
    ensures
        flat_terms(a + b) == flat_terms(a) + flat_terms(b),
    decreases b.len(),
{
    if b.len() == 0 {
        assert(a + b =~= a);
        assert(flat_terms(a) + flat_terms(b) =~= flat_terms(a));
    } else {
        lemma_flat_concat(a, b.drop_last());
        assert((a + b).drop_last() =~= a + b.drop_last());
        assert((a + b).last() == b.last());
        assert(flat_terms(a) + flat_terms(b.drop_last()) + b.last() =~= flat_terms(a) + (
        flat_terms(b.drop_last()) + b.last()));
    }
}

/// The flattening of a corpus starts with its first document's terms.
pub proof fn lemma_flat_first(dt: Seq<Seq<Seq<char>>>)
    requires
        dt.len() > 0,
    ensures
        flat_terms(dt) == dt[0] + flat_terms(dt.drop_first()),
{
    assert(dt =~= seq![dt[0]] + dt.drop_first());
    lemma_flat_concat(seq![dt[0]], dt.drop_first());
    assert(flat_terms(seq![dt[0]]) == flat_terms(seq![dt[0]].drop_last()) + dt[0]);
    assert(seq![dt[0]].drop_last() =~= Seq::<Seq<Seq<char>>>::empty());
    assert(flat_terms(seq![dt[0]]) =~= dt[0]);
}

/// Every document's terms lie within the flattened corpus, starting at the
/// total length of the documents before it; in particular each document is
/// no longer than the whole.
pub proof fn lemma_doc_le_flat(dt: Seq<Seq<Seq<char>>>, d: int)
    requires
        0 <= d < dt.len(),
    ensures
        dt[d].len() <= flat_terms(dt).len(),
        forall|j: int| 0 <= j < dt[d].len() ==> flat_terms(dt).contains(#[trigger] dt[d][j]),
    decreases dt.len(),
{
    let fl = flat_terms(dt);
    if d == dt.len() - 1 {
        assert forall|j: int| 0 <= j < dt[d].len() implies fl.contains(dt[d][j]) by {
            assert(fl[flat_terms(dt.drop_last()).len() + j] == dt[d][j]);
        }
    } else {
        lemma_doc_le_flat(dt.drop_last(), d);
        assert(dt.drop_last()[d] == dt[d]);
        let fl0 = flat_terms(dt.drop_last());
        assert forall|j: int| 0 <= j < dt[d].len() implies fl.contains(dt[d][j]) by {
            assert(fl0.contains(dt[d][j]));
            let w = choose|w: int| 0 <= w < fl0.len() && fl0[w] == dt[d][j];
            assert(fl[w] == dt[d][j]);
        }
    }
}

/// Two different documents together are no longer than the whole corpus.
pub proof fn lemma_two_docs_le_flat(dt: Seq<Seq<Seq<char>>>, t: int, i: int)
    requires
        0 <= t < dt.len(),
        0 <= i < dt.len(),
        t != i,
    ensures
        dt[t].len() + dt[i].len() <= flat_terms(dt).len(),
    decreases dt.len(),
{
    let lo = if t < i {
        t
    } else {
        i
    };
    let hi = if t < i {
        i
    } else {
        t
    };
    if hi == dt.len() - 1 {
        lemma_doc_le_flat(dt.drop_last(), lo);
        assert(dt.drop_last()[lo] == dt[lo]);
    } else {
        lemma_two_docs_le_flat(dt.drop_last(), t, i);
        assert(dt.drop_last()[t] == dt[t] && dt.drop_last()[i] == dt[i]);
    }
}

// ---------------------------------------------------------------------------
// Sums of counts over the vocabulary, and the dot-product bound.
// ---------------------------------------------------------------------------

/// Sum of the counts in `ts` of the first `k` terms of `vocab`.
pub open spec fn sum_counts(ts: Seq<Seq<char>>, vocab: Seq<Seq<char>>, k: int) -> nat
    decreases k,
{
    if k <= 0 {
        0
    } else {
        sum_counts(ts, vocab, k - 1) + count_term(ts, vocab[k - 1])
    }
}

proof fn lemma_sum_counts_empty(vocab: Seq<Seq<char>>, k: int)
    ensures
        sum_counts(Seq::empty(), vocab, k) == 0,
    decreases k,
{
    if k > 0 {
        lemma_sum_counts_empty(vocab, k - 1);
    }
}

proof fn lemma_sum_counts_step(ts: Seq<Seq<char>>, vocab: Seq<Seq<char>>, k: int)
    requires
        ts.len() > 0,
        0 <= k <= vocab.len(),
    ensures
        sum_counts(ts, vocab, k) == sum_counts(ts.drop_last(), vocab, k) + count_term(
            vocab.take(k),
            ts.last(),
        ),
    decreases k,
{
    if k <= 0 {
        assert(vocab.take(k) =~= Seq::<Seq<char>>::empty());
    } else {
        lemma_sum_counts_step(ts, vocab, k - 1);
        assert(vocab.take(k).drop_last() =~= vocab.take(k - 1));
        assert(vocab.take(k).last() == vocab[k - 1]);
    }
}

/// Against a distinct vocabulary, the summed counts of a document's terms
/// never exceed the document's length.
pub proof fn lemma_sum_counts_le_len(ts: Seq<Seq<char>>, vocab: Seq<Seq<char>>, k: int)
    requires
        distinct_terms(vocab),
        0 <= k <= vocab.len(),
    ensures
        sum_counts(ts, vocab, k) <= ts.len(),
    decreases ts.len(),
{
    if ts.len() == 0 {
        assert(ts =~= Seq::<Seq<char>>::empty());
        lemma_sum_counts_empty(vocab, k);
    } else {
        lemma_sum_counts_le_len(ts.drop_last(), vocab, k);
        lemma_sum_counts_step(ts, vocab, k);
        assert forall|a: int, b: int| 0 <= a < b < vocab.take(k).len() implies vocab.take(k)[a]
            != vocab.take(k)[b] by {
            assert(vocab.take(k)[a] == vocab[a]);
            assert(vocab.take(k)[b] == vocab[b]);
        }
        lemma_distinct_count_le_one(vocab.take(k), ts.last());
        assert(sum_counts(ts, vocab, k) == sum_counts(ts.drop_last(), vocab, k) + count_term(
            vocab.take(k),
            ts.last(),
        ));
        assert(sum_counts(ts.drop_last(), vocab, k) <= ts.len() - 1);
    }
}

// ---------------------------------------------------------------------------
// The fixed-point logarithm and its bounds.
// ---------------------------------------------------------------------------

proof fn lemma_ilog2_bounds(q: nat)
    requires
        q >= 1,
    ensures
        pow2(ilog2(q)) <= q < pow2(ilog2(q) + 1),
    decreases q,
{
    lemma2_to64();
    if q < 2 {
    } else {
        lemma_ilog2_bounds(q / 2);
        let k0 = ilog2(q / 2);
        let k = ilog2(q);
        assert(k == 1 + k0);
        vstd::arithmetic::power2::lemma_pow2_adds(1, k0);
        vstd::arithmetic::power2::lemma_pow2_adds(1, k0 + 1);
        lemma_fundamental_div_mod(q as int, 2);
        assert(pow2(k) == 2 * pow2(k0));
        assert(pow2(k + 1) == 2 * pow2(k0 + 1));
        assert(2 * pow2(k0) <= q) by {
            assert(pow2(k0) <= q / 2);
        }
        assert(q < 2 * pow2(k0 + 1)) by {
            assert(q / 2 + 1 <= pow2(k0 + 1));
            assert(q == 2 * (q / 2) + q % 2);
        }
    }
}

proof fn lemma_ilog2_unique(q: nat, k: nat)
    requires
        pow2(k) <= q < pow2(k + 1),
    ensures
        ilog2(q) == k,
    decreases k,
{
    lemma2_to64();
    if k == 0 {
        assert(q == 1);
    } else {
        vstd::arithmetic::power2::lemma_pow2_adds(1, (k - 1) as nat);
        vstd::arithmetic::power2::lemma_pow2_adds(1, k);
        lemma_fundamental_div_mod(q as int, 2);
        assert(pow2(k) == 2 * pow2((k - 1) as nat));
        assert(pow2(k + 1) == 2 * pow2(k));
        vstd::arithmetic::power2::lemma_pow2_pos((k - 1) as nat);
        assert(q >= 2);
        assert(pow2((k - 1) as nat) <= q / 2) by {
            assert(q == 2 * (q / 2) + q % 2);
            assert(2 * (q / 2) >= 2 * pow2((k - 1) as nat) - 1);
        }
        assert(q / 2 < pow2(k)) by {
            assert(q == 2 * (q / 2) + q % 2);
        }
        lemma_ilog2_unique(q / 2, (k - 1) as nat);
    }
}

/// The smoothed idf lies between `SCALE` and `IDF_MAX` for any corpus a
/// machine can index.
pub proof fn lemma_idf_bounds(n: nat, d: nat)
    requires
        d <= n,
        n <= 0xffff_ffff_ffff_ffff,
    ensures
        SCALE <= idf_fp(n, d) <= IDF_MAX,
{
    let a = n + 1;
    let b = d + 1;
    let q = a / b;
    assert(q >= 1) by {
        lemma_fundamental_div_mod(a as int, b as int);
        vstd::arithmetic::div_mod::lemma_mod_division_less_than_divisor(a as int, b as int);
        assert(q >= 1) by (nonlinear_arith)
            requires
                a == b * q + a % b,
                0 <= a % b < b,
                b <= a,
        ;
    }
    lemma_ilog2_bounds(q);
    let k = ilog2(q);
    let p = b * pow2(k);
    lemma2_to64();
    vstd::arithmetic::power2::lemma_pow2_pos(k);
    assert(k <= 64) by {
        assert(pow2(k) <= q);
        assert(q <= a) by {
            lemma_fundamental_div_mod(a as int, b as int);
            assert(b * q <= a) by (nonlinear_arith)
                requires
                    a == b * q + a % b,
                    a % b >= 0,
            ;
            assert(q <= b * q) by (nonlinear_arith)
                requires
                    b >= 1,
                    q >= 0,
            ;
        }
        if k >= 65 {
            lemma_pow2_strictly_increases(64, k);
            assert(pow2(64) == 0x10000000000000000);
            assert(false);
        }
    }
    assert(p >= 1) by {
        assert(b * pow2(k) >= 1) by (nonlinear_arith)
            requires
                b >= 1,
                pow2(k) >= 1,
        ;
    }
    if a >= p {
        assert(a < 2 * p) by {
            lemma_fundamental_div_mod(a as int, b as int);
            vstd::arithmetic::div_mod::lemma_mod_division_less_than_divisor(a as int, b as int);
            assert(q + 1 <= pow2(k + 1));
            vstd::arithmetic::power2::lemma_pow2_adds(1, k);
            assert(pow2(k + 1) == 2 * pow2(k));
            let r = a % b;
            assert(a < b * (q + 1)) by (nonlinear_arith)
                requires
                    a == b * q + r,
                    r < b,
            ;
            assert(b * (q + 1) <= b * (2 * pow2(k))) by (nonlinear_arith)
                requires
                    q + 1 <= 2 * pow2(k),
                    b >= 1,
            ;
            assert(b * (2 * pow2(k)) == 2 * p) by (nonlinear_arith)
                requires
                    p == b * pow2(k),
            ;
        }
        let x = (a - p) * LN2_FP;
        assert(x == (a - p) * 710);
        assert(x < p * 710) by (nonlinear_arith)
            requires
                a - p < p,
                x == (a - p) * 710,
        ;
        assert(x / (p as int) <= 709) by {
            lemma_fundamental_div_mod(x as int, p as int);
            if x / (p as int) >= 710 {
                assert(x >= p * 710) by (nonlinear_arith)
                    requires
                        x == p * (x / (p as int)) + x % (p as int),
                        x % (p as int) >= 0,
                        x / (p as int) >= 710,
                        p >= 1,
                ;
            }
        }
        assert(x / (p as int) >= 0) by {
            lemma_fundamental_div_mod(x as int, p as int);
            assert(x >= 0);
            vstd::arithmetic::div_mod::lemma_div_is_ordered(0, x as int, p as int);
        }
        assert(k * LN2_FP <= 64 * 710) by (nonlinear_arith)
            requires
                k <= 64,
        ;
    } else {
        assert(k * LN2_FP <= 64 * 710) by (nonlinear_arith)
            requires
                k <= 64,
        ;
    }
}

/// Computes the fixed-point smoothed idf of one term.
fn idf_weight(n: usize, d: u64) -> (w: u64)
    requires
        d as nat <= n as nat,
    ensures
        w == idf_fp(n as nat, d as nat),
        SCALE <= w <= IDF_MAX,
{
    proof {
        lemma_idf_bounds(n as nat, d as nat);
    }
    let a: u128 = n as u128 + 1;
    let b: u128 = d as u128 + 1;
    let ghost an = a as nat;
    let ghost bn = b as nat;
    let mut p: u128 = b;
    let mut k: u64 = 0;
    proof {
        lemma2_to64();
        assert(pow2(0) == 1);
        assert(bn * 1 == bn) by (nonlinear_arith);
    }
    while 2 * p <= a
        invariant
            1 <= b <= a <= 0x1_0000_0000_0000_0000u128,
            p as nat == bn * pow2(k as nat),
            p <= a,
            an == a as nat,
            bn == b as nat,
            k <= 64,
        decreases a - p,
    {
        proof {
            vstd::arithmetic::power2::lemma_pow2_adds(1, k as nat);
            lemma2_to64();
            assert((2 * p) as nat == bn * pow2((k + 1) as nat)) by (nonlinear_arith)
                requires
                    p as nat == bn * pow2(k as nat),
                    pow2((k + 1) as nat) == 2 * pow2(k as nat),
            ;
            vstd::arithmetic::power2::lemma_pow2_pos(k as nat);
            assert(p >= 1) by (nonlinear_arith)
                requires
                    p as nat == bn * pow2(k as nat),
                    bn >= 1,
                    pow2(k as nat) >= 1,
            ;
            if k >= 64 {
                assert(pow2(64) == 0x10000000000000000);
                assert(bn * pow2(k as nat) >= pow2(64)) by (nonlinear_arith)
                    requires
                        bn >= 1,
                        pow2(k as nat) >= pow2(64),
                ;
                assert(false);
            }
        }
        p = 2 * p;
        k = k + 1;
    }
    proof {
        // p == b * 2^k <= a < 2 * p, so k is exactly ilog2(a / b).
        let q = an / bn;
        lemma_fundamental_div_mod(an as int, bn as int);
        assert(q >= pow2(k as nat)) by (nonlinear_arith)
            requires
                an == bn * q + an % bn,
                0 <= an % bn < bn,
                bn * pow2(k as nat) <= an,
                bn >= 1,
        ;
        vstd::arithmetic::power2::lemma_pow2_adds(1, k as nat);
        lemma2_to64();
        assert(q < pow2((k + 1) as nat)) by (nonlinear_arith)
            requires
                an == bn * q + an % bn,
                0 <= an % bn,
                an < 2 * (bn * pow2(k as nat)),
                pow2((k + 1) as nat) == 2 * pow2(k as nat),
                bn >= 1,
        ;
        lemma_ilog2_unique(q, k as nat);
    }
    let fr: u128 = ((a - p) * 710) / p;
    proof {
        assert(p >= 1);
        assert(((a - p) * 710) as nat / (p as nat) == ((an - p as nat) * LN2_FP) / (p as int));
        lemma_idf_bounds(n as nat, d as nat);
    }
    1024 + k * 710 + fr as u64
}

/// Document frequency never exceeds the corpus size.
pub proof fn lemma_df_le_n(dt: Seq<Seq<Seq<char>>>, x: Seq<char>)
    ensures
        df_count(dt, x) <= dt.len(),
    decreases dt.len(),
{
    if dt.len() > 0 {
        lemma_df_le_n(dt.drop_last(), x);
    }
}

// ---------------------------------------------------------------------------
// Bounds on dot products, and degenerate vectors.
// ---------------------------------------------------------------------------

proof fn lemma_dot_upto_bound(dt: Seq<Seq<Seq<char>>>, t: int, i: int, k: int)
    requires
        0 <= t < dt.len(),
        0 <= i < dt.len(),
        dt.len() <= 0xffff_ffff_ffff_ffff,
        0 <= k <= vocab_of(dt).len(),
    ensures
        dot_upto(dt, t, i, k) <= IDF_MAX * IDF_MAX * sum_counts(dt[t], vocab_of(dt), k)
            * sum_counts(dt[i], vocab_of(dt), k),
    decreases k,
{
    if k > 0 {
        lemma_dot_upto_bound(dt, t, i, k - 1);
        let x = vocab_of(dt)[k - 1];
        lemma_df_le_n(dt, x);
        lemma_idf_bounds(dt.len(), df_count(dt, x));
        let e = idf_fp(dt.len(), df_count(dt, x));
        let a = count_term(dt[t], x);
        let b = count_term(dt[i], x);
        let sa = sum_counts(dt[t], vocab_of(dt), k - 1);
        let sb = sum_counts(dt[i], vocab_of(dt), k - 1);
        assert(dot_upto(dt, t, i, k) == dot_upto(dt, t, i, k - 1) + (a * e) * (b * e));
        assert((a * e) * (b * e) == (a * b) * (e * e)) by (nonlinear_arith);
        assert(e * e <= 47173 * 47173) by (nonlinear_arith)
            requires
                0 <= e <= 47173,
        ;
        assert((a * b) * (e * e) <= (a * b) * (47173 * 47173)) by (nonlinear_arith)
            requires
                a >= 0,
                b >= 0,
                0 <= e * e <= 47173 * 47173,
        ;
        assert(47173 * 47173 * sa * sb + (a * b) * (47173 * 47173) <= 47173 * 47173 * ((sa + a)
            * (sb + b))) by (nonlinear_arith)
            requires
                sa >= 0,
                sb >= 0,
                a >= 0,
                b >= 0,
        ;
        assert(sum_counts(dt[t], vocab_of(dt), k) == sa + a);
        assert(sum_counts(dt[i], vocab_of(dt), k) == sb + b);
        assert(IDF_MAX * IDF_MAX * ((sa + a) * (sb + b)) == 47173 * 47173 * ((sa + a) * (sb + b)));
        assert(IDF_MAX * IDF_MAX * (sa + a) * (sb + b) == IDF_MAX * IDF_MAX * ((sa + a) * (sb
            + b))) by (nonlinear_arith);
        assert(IDF_MAX * IDF_MAX * sa * sb == 47173 * 47173 * sa * sb);
        assert(47173 * 47173 * sa * sb == 47173 * 47173 * (sa * sb)) by (nonlinear_arith);
    }
}

/// For a corpus of at most [`MAX_CORPUS_TERMS`] terms, every dot product of
/// two distinct documents' weight vectors fits well below `2^64`, so its
/// square fits in 128 bits.
pub proof fn lemma_dot_lt(dt: Seq<Seq<Seq<char>>>, t: int, i: int)
    requires
        0 <= t < dt.len(),
        0 <= i < dt.len(),
        t != i,
        dt.len() <= 0xffff_ffff_ffff_ffff,
        flat_terms(dt).len() <= MAX_CORPUS_TERMS,
    ensures
        dot_of(dt, t, i) < 0x4000_0000_0000_0000,
{
    let vocab = vocab_of(dt);
    let v = vocab.len() as int;
    lemma_dedup_distinct(flat_terms(dt), Seq::empty());
    lemma_dot_upto_bound(dt, t, i, v);
    lemma_sum_counts_le_len(dt[t], vocab, v);
    lemma_sum_counts_le_len(dt[i], vocab, v);
    lemma_two_docs_le_flat(dt, t, i);
    let st = sum_counts(dt[t], vocab, v);
    let si = sum_counts(dt[i], vocab, v);
    let tt = dt[t].len();
    let ti = dt[i].len();
    assert(st * si <= 0x4000_0000) by (nonlinear_arith)
        requires
            0 <= st <= tt,
            0 <= si <= ti,
            tt + ti <= 65536,
    ;
    assert(IDF_MAX * IDF_MAX * st * si < 0x4000_0000_0000_0000) by (nonlinear_arith)
        requires
            0 <= st * si <= 0x4000_0000,
    ;
}

/// A degenerate (zero-norm) vector on either side makes the dot product
/// vanish.
pub proof fn lemma_dot_zero_if_norm_zero(dt: Seq<Seq<Seq<char>>>, t: int, i: int, k: int)
    ensures
        dot_upto(dt, t, t, k) == 0 ==> dot_upto(dt, t, i, k) == 0,
        dot_upto(dt, i, i, k) == 0 ==> dot_upto(dt, t, i, k) == 0,
    decreases k,
{
    if k > 0 {
        lemma_dot_zero_if_norm_zero(dt, t, i, k - 1);
        let x = vocab_of(dt)[k - 1];
        let wt = weight(dt, t, x);
        let wi = weight(dt, i, x);
        assert(wt * wt == 0 ==> wt == 0) by (nonlinear_arith);
        assert(wi * wi == 0 ==> wi == 0) by (nonlinear_arith);
        assert(wt == 0 ==> wt * wi == 0) by (nonlinear_arith);
        assert(wi == 0 ==> wt * wi == 0) by (nonlinear_arith);
    }
}

/// Partial dot products only grow with more vocabulary terms.
pub proof fn lemma_dot_upto_mono(dt: Seq<Seq<Seq<char>>>, t: int, i: int, k1: int, k2: int)
    requires
        k1 <= k2,
    ensures
        dot_upto(dt, t, i, k1) <= dot_upto(dt, t, i, k2),
    decreases k2 - k1,
{
    if k1 < k2 {
        lemma_dot_upto_mono(dt, t, i, k1, k2 - 1);
    }
}

/// A document with at least one term has a positive squared norm.
pub proof fn lemma_norm_pos(dt: Seq<Seq<Seq<char>>>, t: int)
    requires
        0 <= t < dt.len(),
        dt[t].len() > 0,
    ensures
        norm_sq_of(dt, t) > 0,
{
    let x = dt[t][0];
    let vocab = vocab_of(dt);
    lemma_doc_le_flat(dt, t);
    assert(flat_terms(dt).contains(x));
    lemma_dedup_covers(flat_terms(dt), Seq::empty());
    assert(!Seq::<Seq<char>>::empty().contains(x));
    assert(vocab.contains(x));
    let k0 = choose|k0: int| 0 <= k0 < vocab.len() && vocab[k0] == x;
    lemma_count_pos_iff_contains(dt[t], x);
    assert(dt[t].contains(x)) by {
        assert(dt[t][0] == x);
    }
    let w = weight(dt, t, x);
    assert(w >= 1 * 1024) by {
        assert(count_term(dt[t], x) >= 1);
        assert(idf_fp(dt.len(), df_count(dt, x)) >= 1024);
        assert(count_term(dt[t], x) * idf_fp(dt.len(), df_count(dt, x)) >= 1 * 1024)
            by (nonlinear_arith)
            requires
                count_term(dt[t], x) >= 1,
                idf_fp(dt.len(), df_count(dt, x)) >= 1024,
        ;
    }
    assert(dot_upto(dt, t, t, k0 + 1) > 0) by {
        assert(dot_upto(dt, t, t, k0 + 1) == dot_upto(dt, t, t, k0) + w * w);
        assert(w * w > 0) by (nonlinear_arith)
            requires
                w >= 1,
        ;
    }
    lemma_dot_upto_mono(dt, t, t, k0 + 1, vocab.len() as int);
}

// ---------------------------------------------------------------------------
// Building the matrix.
// ---------------------------------------------------------------------------

/// Why a corpus could not be vectorized.
#[derive(Clone, Copy, PartialEq, Eq, Structural, Debug)]
pub enum VectorizationError {
    /// The corpus holds no documents at all.
    EmptyCorpus,
    /// No document holds a single term, so the vocabulary is empty.
    NoTerms,
    /// The corpus exceeds [`MAX_CORPUS_TERMS`] terms, beyond which the
    /// scores could not be kept exact.
    CorpusTooLarge,
}

/// The tf-idf weight matrix of one corpus: the shared vocabulary, one
/// weight row per document, and each row's squared norm.
pub struct TfidfMatrix {
    /// The term sequences of each document: the mathematical model that
    /// every numeric field is proved against.
    pub docs: Ghost<Seq<Seq<Seq<char>>>>,
    /// The corpus vocabulary, distinct terms in first-occurrence order.
    pub vocab: Vec<Vec<char>>,
    /// `weights[d][k]`: the fixed-point tf-idf weight of vocabulary term
    /// `k` in document `d`.
    pub weights: Vec<Vec<u64>>,
    /// `norm_sq[d]`: the squared Euclidean norm of row `d`.
    pub norm_sq: Vec<u128>,
}

impl TfidfMatrix {
    /// The matrix faithfully represents its corpus.
    pub open spec fn wf(self) -> bool {
        let dt = self.docs@;
        let vocab = vocab_of(dt);
        &&& 0 < dt.len() <= 0xffff_ffff_ffff_ffffu64
        &&& flat_terms(dt).len() <= MAX_CORPUS_TERMS
        &&& vocab.len() > 0
        &&& self.vocab.deep_view() == vocab
        &&& self.weights@.len() == dt.len()
        &&& forall|d: int|
            0 <= d < dt.len() ==> (#[trigger] self.weights@[d])@.len() == vocab.len()
        &&& forall|d: int, k: int|
            0 <= d < dt.len() && 0 <= k < vocab.len() ==> (#[trigger] self.weights@[d]@[k])
                == weight(dt, d, vocab[k])
        &&& forall|d: int, k: int|
            0 <= d < dt.len() && 0 <= k < vocab.len() ==> (#[trigger] self.weights@[d]@[k])
                < 0x1_0000_0000u64
        &&& self.norm_sq@.len() == dt.len()
        &&& forall|d: int| 0 <= d < dt.len() ==> (#[trigger] self.norm_sq@[d]) == norm_sq_of(dt, d)
    }

    /// Number of documents the matrix was fitted to.
    pub open spec fn n_docs(self) -> nat {
        self.docs@.len()
    }
}

/// A character vector's deep view is its view.
pub proof fn lemma_chars_deep_view(v: Vec<char>)
    ensures
        v.deep_view() == v@,
{
    assert(v.deep_view() =~= v@);
}

proof fn lemma_push_deep_view2(v1: Vec<Vec<char>>, v2: Vec<Vec<char>>, x: Vec<char>)
    requires
        v2@ == v1@.push(x),
    ensures
        v2.deep_view() == v1.deep_view().push(x@),
{
    lemma_chars_deep_view(x);
    assert forall|i: int| 0 <= i < v2@.len() implies v2.deep_view()[i] == v1.deep_view().push(
        x@,
    )[i] by {
        if i < v1@.len() {
            assert(v2@[i] == v1@[i]);
        } else {
            assert(v2@[i] == x);
        }
    }
    assert(v2.deep_view() =~= v1.deep_view().push(x@));
}

/// Character-by-character equality of two terms.
fn eq_chars(a: &Vec<char>, b: &Vec<char>) -> (r: bool)
    ensures
        r == (a@ == b@),
{
    if a.len() != b.len() {
        return false;
    }
    let mut i: usize = 0;
    while i < a.len()
        invariant
            i <= a@.len(),
            a@.len() == b@.len(),
            forall|k: int| 0 <= k < i ==> a@[k] == b@[k],
        decreases a@.len() - i,
    {
        if a[i] != b[i] {
            return false;
        }
        i = i + 1;
    }
    proof {
        assert(a@ =~= b@);
    }
    true
}

/// Looks a term up in the vocabulary.
fn find_term(vocab: &Vec<Vec<char>>, x: &Vec<char>) -> (r: Option<usize>)
    ensures
        match r {
            Some(k) => k < vocab@.len() && vocab@[k as int]@ == x@,
            None => !vocab.deep_view().contains(x@),
        },
{
    let mut k: usize = 0;
    while k < vocab.len()
        invariant
            k <= vocab@.len(),
            forall|j: int| 0 <= j < k ==> vocab@[j]@ != x@,
        decreases vocab@.len() - k,
    {
        if eq_chars(&vocab[k], x) {
            return Some(k);
        }
        k = k + 1;
    }
    proof {
        if vocab.deep_view().contains(x@) {
            let w = choose|w: int| 0 <= w < vocab@.len() && vocab.deep_view()[w] == x@;
            lemma_chars_deep_view(vocab@[w]);
            assert(vocab@[w]@ == x@);
        }
    }
    None
}

/// Splits every document of the corpus into its terms.
fn split_all(docs: &Vec<Vec<char>>) -> (dts: Vec<Vec<Vec<char>>>)
    ensures
        dts.deep_view() == terms_of_docs(docs.deep_view()),
        dts@.len() == docs@.len(),
        forall|d: int| 0 <= d < docs@.len() ==> (#[trigger] dts@[d]).deep_view() == split_terms(
            docs@[d]@,
        ),
{
    let mut dts: Vec<Vec<Vec<char>>> = Vec::new();
    let mut d: usize = 0;
    while d < docs.len()
        invariant
            d <= docs@.len(),
            dts@.len() == d,
            forall|q: int| 0 <= q < d ==> (#[trigger] dts@[q]).deep_view() == split_terms(
                docs@[q]@,
            ),
        decreases docs.len() - d,
    {
        let ts = crate::text::split_document(&docs[d]);
        dts.push(ts);
        d = d + 1;
    }
    proof {
        let dv = docs.deep_view();
        assert forall|q: int| 0 <= q < dv.len() implies dts.deep_view()[q] == terms_of_docs(
            dv,
        )[q] by {
            lemma_chars_deep_view(docs@[q]);
            assert(dv[q] == docs@[q]@);
            assert(dts.deep_view()[q] == dts@[q].deep_view());
        }
        assert(dts.deep_view() =~= terms_of_docs(dv));
    }
    dts
}

proof fn lemma_flat_take_step(dt: Seq<Seq<Seq<char>>>, d: int)
    requires
        0 <= d < dt.len(),
    ensures
        flat_terms(dt.take(d + 1)).len() == flat_terms(dt.take(d)).len() + dt[d].len(),
{
    assert(dt.take(d + 1).drop_last() =~= dt.take(d));
    assert(dt.take(d + 1).last() == dt[d]);
}

proof fn lemma_flat_prefix_le(dt: Seq<Seq<Seq<char>>>, d: int)
    requires
        0 <= d <= dt.len(),
    ensures
        flat_terms(dt.take(d)).len() <= flat_terms(dt).len(),
{
    assert(dt =~= dt.take(d) + dt.skip(d));
    lemma_flat_concat(dt.take(d), dt.skip(d));
}

/// Totals the corpus's terms, refusing a corpus beyond the exact-arithmetic
/// budget.
fn count_total_terms(dts: &Vec<Vec<Vec<char>>>) -> (r: Option<usize>)
    ensures
        match r {
            Some(n) => n == flat_terms(dts.deep_view()).len() && n <= MAX_CORPUS_TERMS,
            None => flat_terms(dts.deep_view()).len() > MAX_CORPUS_TERMS,
        },
{
    let ghost dt = dts.deep_view();
    let mut total: usize = 0;
    let mut d: usize = 0;
    proof {
        assert(dt.take(0) =~= Seq::<Seq<Seq<char>>>::empty());
    }
    while d < dts.len()
        invariant
            d <= dts@.len(),
            dt == dts.deep_view(),
            dt.len() == dts@.len(),
            forall|q: int| 0 <= q < dt.len() ==> dt[q] == (#[trigger] dts@[q]).deep_view(),
            total == flat_terms(dt.take(d as int)).len(),
            total <= MAX_CORPUS_TERMS,
        decreases dts@.len() - d,
    {
        let len_d = dts[d].len();
        proof {
            lemma_flat_take_step(dt, d as int);
            assert(dt[d as int].len() == dts@[d as int].deep_view().len());
        }
        if len_d > MAX_CORPUS_TERMS - total {
            proof {
                lemma_flat_prefix_le(dt, d + 1);
            }
            return None;
        }
        total = total + len_d;
        d = d + 1;
    }
    proof {
        assert(dt.take(dts@.len() as int) =~= dt);
    }
    Some(total)
}

/// Builds the vocabulary: the corpus's distinct terms in first-occurrence
/// order.
fn build_vocab(dts: &Vec<Vec<Vec<char>>>) -> (vocab: Vec<Vec<char>>)
    ensures
        vocab.deep_view() == vocab_of(dts.deep_view()),
{
    let ghost dt = dts.deep_view();
    let ghost fl = flat_terms(dt);
    let mut vocab: Vec<Vec<char>> = Vec::new();
    let mut d: usize = 0;
    proof {
        assert(vocab.deep_view() =~= Seq::<Seq<char>>::empty());
        assert(dt.skip(0) =~= dt);
        assert(Seq::<Seq<char>>::empty() + dedup_terms(fl, vocab.deep_view()) =~= dedup_terms(
            fl,
            vocab.deep_view(),
        ));
    }
    while d < dts.len()
        invariant
            d <= dts@.len(),
            dt == dts.deep_view(),
            dt.len() == dts@.len(),
            fl == flat_terms(dt),
            forall|q: int| 0 <= q < dt.len() ==> dt[q] == (#[trigger] dts@[q]).deep_view(),
            dedup_terms(fl, Seq::empty()) == vocab.deep_view() + dedup_terms(
                flat_terms(dt.skip(d as int)),
                vocab.deep_view(),
            ),
        decreases dts@.len() - d,
    {
        let ghost rem0 = flat_terms(dt.skip(d as int));
        proof {
            lemma_flat_first(dt.skip(d as int));
            assert(dt.skip(d as int)[0] == dt[d as int]);
            assert(dt.skip(d as int).drop_first() =~= dt.skip(d + 1));
            assert(rem0 == dt[d as int] + flat_terms(dt.skip(d + 1)));
            assert(dt[d as int].skip(0) =~= dt[d as int]);
        }
        let mut j: usize = 0;
        while j < dts[d].len()
            invariant
                d < dts@.len(),
                j <= dts@[d as int]@.len(),
                dt == dts.deep_view(),
                dt.len() == dts@.len(),
                fl == flat_terms(dt),
                forall|q: int| 0 <= q < dt.len() ==> dt[q] == (#[trigger] dts@[q]).deep_view(),
                dt[d as int].len() == dts@[d as int]@.len(),
                dedup_terms(fl, Seq::empty()) == vocab.deep_view() + dedup_terms(
                    dt[d as int].skip(j as int) + flat_terms(dt.skip(d + 1)),
                    vocab.deep_view(),
                ),
            decreases dts@[d as int]@.len() - j,
        {
            let ghost vdv = vocab.deep_view();
            let ghost rem = dt[d as int].skip(j as int) + flat_terms(dt.skip(d + 1));
            let x = &dts[d][j];
            proof {
                lemma_chars_deep_view(dts@[d as int]@[j as int]);
                assert(dt[d as int][j as int] == x@);
                assert(rem.len() > 0);
                assert(rem[0] == x@);
                assert(rem.drop_first() =~= dt[d as int].skip(j + 1) + flat_terms(
                    dt.skip(d + 1),
                ));
            }
            let found = find_term(&vocab, x);
            match found {
                Some(_) => {
                    proof {
                        let k = found.unwrap();
                        lemma_chars_deep_view(vocab@[k as int]);
                        assert(vdv[k as int] == x@);
                        assert(vdv.contains(x@));
                        assert(dedup_terms(rem, vdv) == dedup_terms(rem.drop_first(), vdv));
                    }
                },
                None => {
                    proof {
                        assert(!vdv.contains(x@));
                        assert(dedup_terms(rem, vdv) == seq![x@] + dedup_terms(
                            rem.drop_first(),
                            vdv.push(x@),
                        ));
                        assert(vdv + (seq![x@] + dedup_terms(rem.drop_first(), vdv.push(x@)))
                            =~= vdv.push(x@) + dedup_terms(rem.drop_first(), vdv.push(x@)));
                    }
                    let copy = crate::text::copy_range(x, 0, x.len());
                    proof {
                        assert(copy@ =~= x@);
                    }
                    let ghost pre = vocab;
                    vocab.push(copy);
                    proof {
                        lemma_push_deep_view2(pre, vocab, copy);
                    }
                },
            }
            j = j + 1;
        }
        proof {
            assert(dt[d as int].skip(dt[d as int].len() as int) =~= Seq::<Seq<char>>::empty());
            assert(Seq::<Seq<char>>::empty() + flat_terms(dt.skip(d + 1)) =~= flat_terms(
                dt.skip(d + 1),
            ));
        }
        d = d + 1;
    }
    proof {
        assert(dt.skip(dts@.len() as int) =~= Seq::<Seq<Seq<char>>>::empty());
        assert(dedup_terms(Seq::<Seq<char>>::empty(), vocab.deep_view())
            == Seq::<Seq<char>>::empty());
        assert(vocab.deep_view() + Seq::<Seq<char>>::empty() =~= vocab.deep_view());
    }
    vocab
}

fn zero_row(n: usize) -> (r: Vec<u64>)
    ensures
        r@.len() == n,
        forall|k: int| 0 <= k < n ==> r@[k] == 0,
{
    let mut r: Vec<u64> = Vec::new();
    let mut k: usize = 0;
    while k < n
        invariant
            k <= n,
            r@.len() == k,
            forall|q: int| 0 <= q < k ==> r@[q] == 0,
        decreases n - k,
    {
        r.push(0);
        k = k + 1;
    }
    r
}

/// Counts, for every document, how often each vocabulary term occurs in it.
fn term_counts(dts: &Vec<Vec<Vec<char>>>, vocab: &Vec<Vec<char>>) -> (rows: Vec<Vec<u64>>)
    requires
        vocab.deep_view() == vocab_of(dts.deep_view()),
        flat_terms(dts.deep_view()).len() <= MAX_CORPUS_TERMS,
    ensures
        rows@.len() == dts@.len(),
        forall|d: int|
            0 <= d < dts@.len() ==> (#[trigger] rows@[d])@.len() == vocab@.len(),
        forall|d: int, k: int|
            0 <= d < dts@.len() && 0 <= k < vocab@.len() ==> (#[trigger] rows@[d]@[k])
                == count_term(dts.deep_view()[d], vocab_of(dts.deep_view())[k]),
{
    let ghost dt = dts.deep_view();
    let ghost voc = vocab_of(dt);
    proof {
        lemma_dedup_distinct(flat_terms(dt), Seq::empty());
    }
    let mut rows: Vec<Vec<u64>> = Vec::new();
    let mut d: usize = 0;
    while d < dts.len()
        invariant
            d <= dts@.len(),
            dt == dts.deep_view(),
            dt.len() == dts@.len(),
            voc == vocab_of(dt),
            distinct_terms(voc),
            vocab.deep_view() == voc,
            voc.len() == vocab@.len(),
            flat_terms(dt).len() <= MAX_CORPUS_TERMS,
            forall|q: int| 0 <= q < dt.len() ==> dt[q] == (#[trigger] dts@[q]).deep_view(),
            rows@.len() == d,
            forall|q: int| 0 <= q < d ==> (#[trigger] rows@[q])@.len() == vocab@.len(),
            forall|q: int, k: int|
                0 <= q < d && 0 <= k < voc.len() ==> (#[trigger] rows@[q]@[k]) == count_term(
                    dt[q],
                    voc[k],
                ),
        decreases dts@.len() - d,
    {
        let mut row = zero_row(vocab.len());
        let ghost ts = dt[d as int];
        proof {
            assert(ts.take(0) =~= Seq::<Seq<char>>::empty());
            assert forall|k: int| 0 <= k < voc.len() implies count_term(
                Seq::<Seq<char>>::empty(),
                voc[k],
            ) == 0 by {}
        }
        let mut j: usize = 0;
        while j < dts[d].len()
            invariant
                d < dts@.len(),
                j <= dts@[d as int]@.len(),
                dt == dts.deep_view(),
                dt.len() == dts@.len(),
                voc == vocab_of(dt),
                distinct_terms(voc),
                vocab.deep_view() == voc,
                voc.len() == vocab@.len(),
                flat_terms(dt).len() <= MAX_CORPUS_TERMS,
                forall|q: int| 0 <= q < dt.len() ==> dt[q] == (#[trigger] dts@[q]).deep_view(),
                ts == dt[d as int],
                ts.len() == dts@[d as int]@.len(),
                row@.len() == voc.len(),
                forall|k: int|
                    0 <= k < voc.len() ==> (#[trigger] row@[k]) == count_term(
                        ts.take(j as int),
                        voc[k],
                    ),
            decreases dts@[d as int]@.len() - j,
        {
            let x = &dts[d][j];
            proof {
                lemma_chars_deep_view(dts@[d as int]@[j as int]);
                assert(ts[j as int] == x@);
                lemma_doc_le_flat(dt, d as int);
                assert(flat_terms(dt).contains(ts[j as int]));
                lemma_dedup_covers(flat_terms(dt), Seq::empty());
                assert(voc.contains(x@));
            }
            let found = find_term(vocab, x);
            let k0 = match found {
                Some(k0) => k0,
                None => {
                    proof {
                        assert(false);
                    }
                    0
                },
            };
            proof {
                lemma_chars_deep_view(vocab@[k0 as int]);
                assert(voc[k0 as int] == x@);
                lemma_count_le_len(ts.take(j as int), voc[k0 as int]);
                assert(ts.take(j as int).len() == j);
                lemma_doc_le_flat(dt, d as int);
                assert(ts.len() <= MAX_CORPUS_TERMS);
            }
            let cur = row[k0];
            row[k0] = cur + 1;
            proof {
                let tsj = ts.take(j + 1);
                assert(tsj.drop_last() =~= ts.take(j as int));
                assert(tsj.last() == ts[j as int]);
                assert forall|k: int| 0 <= k < voc.len() implies row@[k] == count_term(
                    tsj,
                    voc[k],
                ) by {
                    if k == k0 as int {
                        assert(count_term(tsj, voc[k]) == count_term(ts.take(j as int), voc[k])
                            + 1);
                    } else {
                        assert(voc[k] != voc[k0 as int]);
                        assert(count_term(tsj, voc[k]) == count_term(ts.take(j as int), voc[k]));
                    }
                }
            }
            j = j + 1;
        }
        proof {
            assert(ts.take(ts.len() as int) =~= ts);
        }
        rows.push(row);
        d = d + 1;
    }
    rows
}

/// Document frequency of each vocabulary term, then its idf weight.
fn idf_weights(rows: &Vec<Vec<u64>>, vlen: usize, Ghost(dt): Ghost<Seq<Seq<Seq<char>>>>) -> (idfs:
    Vec<u64>)
    requires
        rows@.len() == dt.len(),
        dt.len() <= 0xffff_ffff_ffff_ffffu64,
        vlen == vocab_of(dt).len(),
        forall|d: int| 0 <= d < dt.len() ==> (#[trigger] rows@[d])@.len() == vlen,
        forall|d: int, k: int|
            0 <= d < dt.len() && 0 <= k < vlen ==> (#[trigger] rows@[d]@[k]) == count_term(
                dt[d],
                vocab_of(dt)[k],
            ),
    ensures
        idfs@.len() == vlen,
        forall|k: int|
            0 <= k < vlen ==> (#[trigger] idfs@[k]) == idf_fp(
                dt.len(),
                df_count(dt, vocab_of(dt)[k]),
            ),
        forall|k: int| 0 <= k < vlen ==> SCALE <= (#[trigger] idfs@[k]) <= IDF_MAX,
{
    let ghost voc = vocab_of(dt);
    let n = rows.len();
    let mut dfs: Vec<u64> = zero_row(vlen);
    let mut d: usize = 0;
    proof {
        assert(dt.take(0) =~= Seq::<Seq<Seq<char>>>::empty());
    }
    while d < n
        invariant
            d <= n,
            n == rows@.len(),
            n == dt.len(),
            voc == vocab_of(dt),
            vlen == voc.len(),
            forall|q: int| 0 <= q < dt.len() ==> (#[trigger] rows@[q])@.len() == vlen,
            forall|q: int, k: int|
                0 <= q < dt.len() && 0 <= k < vlen ==> (#[trigger] rows@[q]@[k]) == count_term(
                    dt[q],
                    voc[k],
                ),
            dfs@.len() == vlen,
            forall|k: int|
                0 <= k < vlen ==> (#[trigger] dfs@[k]) == df_count(dt.take(d as int), voc[k]),
            forall|k: int| 0 <= k < vlen ==> (#[trigger] dfs@[k]) <= d,
        decreases n - d,
    {
        let mut k: usize = 0;
        while k < vlen
            invariant
                d < n,
                k <= vlen,
                n == rows@.len(),
                n == dt.len(),
                voc == vocab_of(dt),
                vlen == voc.len(),
                forall|q: int| 0 <= q < dt.len() ==> (#[trigger] rows@[q])@.len() == vlen,
                forall|q: int, k2: int|
                    0 <= q < dt.len() && 0 <= k2 < vlen ==> (#[trigger] rows@[q]@[k2])
                        == count_term(dt[q], voc[k2]),
                dfs@.len() == vlen,
                forall|k2: int|
                    k <= k2 < vlen ==> (#[trigger] dfs@[k2]) == df_count(
                        dt.take(d as int),
                        voc[k2],
                    ) && dfs@[k2] <= d,
                forall|k2: int|
                    0 <= k2 < k ==> (#[trigger] dfs@[k2]) == df_count(dt.take(d + 1), voc[k2])
                        && dfs@[k2] <= d + 1,
            decreases vlen - k,
        {
            proof {
                assert(dt.take(d + 1).drop_last() =~= dt.take(d as int));
                assert(dt.take(d + 1).last() == dt[d as int]);
            }
            let cur = dfs[k];
            if rows[d][k] > 0 {
                dfs[k] = cur + 1;
            }
            k = k + 1;
        }
        d = d + 1;
    }
    proof {
        assert(dt.take(n as int) =~= dt);
    }
    let mut idfs: Vec<u64> = Vec::new();
    let mut k: usize = 0;
    while k < vlen
        invariant
            k <= vlen,
            n == dt.len(),
            n <= 0xffff_ffff_ffff_ffffu64,
            voc == vocab_of(dt),
            vlen == voc.len(),
            dfs@.len() == vlen,
            forall|k2: int|
                0 <= k2 < vlen ==> (#[trigger] dfs@[k2]) == df_count(dt, voc[k2]) && dfs@[k2]
                    <= n,
            idfs@.len() == k,
            forall|k2: int|
                0 <= k2 < k ==> (#[trigger] idfs@[k2]) == idf_fp(dt.len(), df_count(dt, voc[k2]))
                    && SCALE <= idfs@[k2] <= IDF_MAX,
        decreases vlen - k,
    {
        let w = idf_weight(n, dfs[k]);
        idfs.push(w);
        k = k + 1;
    }
    idfs
}

/// Multiplies counts with idf factors into the weight rows, and sums each
/// row's squared norm.
fn weight_rows(
    rows: &Vec<Vec<u64>>,
    idfs: &Vec<u64>,
    Ghost(dt): Ghost<Seq<Seq<Seq<char>>>>,
) -> (out: (Vec<Vec<u64>>, Vec<u128>))
    requires
        rows@.len() == dt.len(),
        dt.len() <= 0xffff_ffff_ffff_ffffu64,
        flat_terms(dt).len() <= MAX_CORPUS_TERMS,
        idfs@.len() == vocab_of(dt).len(),
        forall|d: int| 0 <= d < dt.len() ==> (#[trigger] rows@[d])@.len() == vocab_of(dt).len(),
        forall|d: int, k: int|
            0 <= d < dt.len() && 0 <= k < vocab_of(dt).len() ==> (#[trigger] rows@[d]@[k])
                == count_term(dt[d], vocab_of(dt)[k]),
        forall|k: int|
            0 <= k < vocab_of(dt).len() ==> (#[trigger] idfs@[k]) == idf_fp(
                dt.len(),
                df_count(dt, vocab_of(dt)[k]),
            ),
        forall|k: int| 0 <= k < vocab_of(dt).len() ==> (#[trigger] idfs@[k]) <= IDF_MAX,
    ensures
        out.0@.len() == dt.len(),
        forall|d: int|
            0 <= d < dt.len() ==> (#[trigger] out.0@[d])@.len() == vocab_of(dt).len(),
        forall|d: int, k: int|
            0 <= d < dt.len() && 0 <= k < vocab_of(dt).len() ==> (#[trigger] out.0@[d]@[k])
                == weight(dt, d, vocab_of(dt)[k]),
        forall|d: int, k: int|
            0 <= d < dt.len() && 0 <= k < vocab_of(dt).len() ==> (#[trigger] out.0@[d]@[k])
                < 0x1_0000_0000u64,
        out.1@.len() == dt.len(),
        forall|d: int| 0 <= d < dt.len() ==> (#[trigger] out.1@[d]) == norm_sq_of(dt, d),
{
    let ghost voc = vocab_of(dt);
    let n = rows.len();
    let vlen = idfs.len();
    let mut ws: Vec<Vec<u64>> = Vec::new();
    let mut ns: Vec<u128> = Vec::new();
    let mut d: usize = 0;
    proof {
        lemma_dedup_le_len(flat_terms(dt), Seq::empty());
        assert(voc.len() <= MAX_CORPUS_TERMS);
    }
    while d < n
        invariant
            d <= n,
            n == rows@.len(),
            n == dt.len(),
            voc == vocab_of(dt),
            vlen == voc.len(),
            vlen <= MAX_CORPUS_TERMS,
            flat_terms(dt).len() <= MAX_CORPUS_TERMS,
            idfs@.len() == vlen,
            forall|q: int| 0 <= q < dt.len() ==> (#[trigger] rows@[q])@.len() == vlen,
            forall|q: int, k: int|
                0 <= q < dt.len() && 0 <= k < vlen ==> (#[trigger] rows@[q]@[k]) == count_term(
                    dt[q],
                    voc[k],
                ),
            forall|k: int|
                0 <= k < vlen ==> (#[trigger] idfs@[k]) == idf_fp(dt.len(), df_count(dt, voc[k])),
            forall|k: int| 0 <= k < vlen ==> (#[trigger] idfs@[k]) <= IDF_MAX,
            ws@.len() == d,
            ns@.len() == d,
            forall|q: int| 0 <= q < d ==> (#[trigger] ws@[q])@.len() == vlen,
            forall|q: int, k: int|
                0 <= q < d && 0 <= k < vlen ==> (#[trigger] ws@[q]@[k]) == weight(dt, q, voc[k]),
            forall|q: int, k: int|
                0 <= q < d && 0 <= k < vlen ==> (#[trigger] ws@[q]@[k]) < 0x1_0000_0000u64,
            forall|q: int| 0 <= q < d ==> (#[trigger] ns@[q]) == norm_sq_of(dt, q),
        decreases n - d,
    {
        let mut wrow: Vec<u64> = Vec::new();
        let mut sum: u128 = 0;
        let mut k: usize = 0;
        proof {
            lemma_doc_le_flat(dt, d as int);
        }
        while k < vlen
            invariant
                d < n,
                k <= vlen,
                n == rows@.len(),
                n == dt.len(),
                voc == vocab_of(dt),
                vlen == voc.len(),
                vlen <= MAX_CORPUS_TERMS,
                dt[d as int].len() <= MAX_CORPUS_TERMS,
                idfs@.len() == vlen,
                forall|q: int| 0 <= q < dt.len() ==> (#[trigger] rows@[q])@.len() == vlen,
                forall|q: int, k2: int|
                    0 <= q < dt.len() && 0 <= k2 < vlen ==> (#[trigger] rows@[q]@[k2])
                        == count_term(dt[q], voc[k2]),
                forall|k2: int|
                    0 <= k2 < vlen ==> (#[trigger] idfs@[k2]) == idf_fp(
                        dt.len(),
                        df_count(dt, voc[k2]),
                    ),
                forall|k2: int| 0 <= k2 < vlen ==> (#[trigger] idfs@[k2]) <= IDF_MAX,
                wrow@.len() == k,
                forall|k2: int|
                    0 <= k2 < k ==> (#[trigger] wrow@[k2]) == weight(dt, d as int, voc[k2]),
                forall|k2: int| 0 <= k2 < k ==> (#[trigger] wrow@[k2]) < 0x1_0000_0000u64,
                sum == dot_upto(dt, d as int, d as int, k as int),
                sum <= k * 0x1_0000_0000_0000_0000u128,
            decreases vlen - k,
        {
            let tf = rows[d][k];
            let idf = idfs[k];
            proof {
                lemma_count_le_len(dt[d as int], voc[k as int]);
                assert(tf <= MAX_CORPUS_TERMS);
                assert(tf * idf < 0x1_0000_0000u64) by (nonlinear_arith)
                    requires
                        0 <= tf <= 65536,
                        0 <= idf <= 47173,
                ;
            }
            let w = tf * idf;
            wrow.push(w);
            proof {
                let wsp = weight(dt, d as int, voc[k as int]);
                assert(wsp == tf * idf);
                assert((w as u128) * (w as u128) < 0x1_0000_0000_0000_0000u128)
                    by (nonlinear_arith)
                    requires
                        0 <= w < 0x1_0000_0000u64,
                ;
                assert(sum + (w as u128) * (w as u128) <= (k + 1) * 0x1_0000_0000_0000_0000u128)
                    by (nonlinear_arith)
                    requires
                        sum <= k * 0x1_0000_0000_0000_0000u128,
                        (w as u128) * (w as u128) < 0x1_0000_0000_0000_0000u128,
                ;
                assert((k + 1) * 0x1_0000_0000_0000_0000u128 <= 65537
                    * 0x1_0000_0000_0000_0000u128) by (nonlinear_arith)
                    requires
                        k + 1 <= 65537,
                ;
                assert(dot_upto(dt, d as int, d as int, k + 1) == dot_upto(
                    dt,
                    d as int,
                    d as int,
                    k as int,
                ) + wsp * wsp);
            }
            sum = sum + (w as u128) * (w as u128);
            k = k + 1;
        }
        ws.push(wrow);
        ns.push(sum);
        d = d + 1;
    }
    (ws, ns)
}

impl TfidfMatrix {
    /// The vectorizer: splits each document by whitespace, builds the
    /// shared vocabulary, and weights every document with smoothed tf-idf.
    /// Fails on an empty corpus, on a corpus without a single term, and on
    /// one beyond the exact-arithmetic budget; succeeds otherwise.
    pub fn fit(docs: &Vec<Vec<char>>) -> (r: Result<TfidfMatrix, VectorizationError>)
        ensures
            ({
                let dt = terms_of_docs(docs.deep_view());
                &&& (r == Result::<TfidfMatrix, VectorizationError>::Err(
                    VectorizationError::EmptyCorpus,
                ) <==> docs@.len() == 0)
                &&& (r == Result::<TfidfMatrix, VectorizationError>::Err(
                    VectorizationError::CorpusTooLarge,
                ) <==> docs@.len() > 0 && flat_terms(dt).len() > MAX_CORPUS_TERMS)
                &&& (r == Result::<TfidfMatrix, VectorizationError>::Err(
                    VectorizationError::NoTerms,
                ) <==> docs@.len() > 0 && flat_terms(dt).len() == 0)
                &&& (r is Ok <==> docs@.len() > 0 && 0 < flat_terms(dt).len()
                    <= MAX_CORPUS_TERMS)
                &&& (r matches Ok(m) ==> m.wf() && m.docs@ == dt && m.n_docs() == docs@.len())
            }),
    {
        let ghost dt = terms_of_docs(docs.deep_view());
        if docs.len() == 0 {
            proof {
                assert(dt.len() == 0);
                assert(dt =~= Seq::<Seq<Seq<char>>>::empty());
            }
            return Err(VectorizationError::EmptyCorpus);
        }
        let dts = split_all(docs);
        let total = match count_total_terms(&dts) {
            None => {
                return Err(VectorizationError::CorpusTooLarge);
            },
            Some(t) => t,
        };
        let vocab = build_vocab(&dts);
        proof {
            if flat_terms(dt).len() == 0 {
                assert(flat_terms(dt) =~= Seq::<Seq<char>>::empty());
                assert(vocab_of(dt).len() == 0);
            } else {
                let fl = flat_terms(dt);
                assert(!Seq::<Seq<char>>::empty().contains(fl[0]));
                assert(vocab_of(dt).len() > 0);
            }
        }
        if vocab.len() == 0 {
            proof {
                assert(vocab.deep_view().len() == 0);
            }
            return Err(VectorizationError::NoTerms);
        }
        let rows = term_counts(&dts, &vocab);
        let idfs = idf_weights(&rows, vocab.len(), Ghost(dt));
        let (weights, norm_sq) = weight_rows(&rows, &idfs, Ghost(dt));
        let m = TfidfMatrix { docs: Ghost(dt), vocab, weights, norm_sq };
        proof {
            assert(m.wf());
        }
        Ok(m)
    }
}

} // verus!
