//! The result store and the query that fills it: the public face of the
//! similar-segment search.

use vstd::prelude::*;
use crate::text::build_documents;
use crate::text::corpus_terms;
use crate::text::join_tokens;
use crate::text::split_terms;
use crate::tfidf::MAX_CORPUS_TERMS;
use crate::tfidf::TfidfMatrix;
use crate::tfidf::VectorizationError;
use crate::tfidf::flat_terms;
use crate::tfidf::norm_sq_of;
use crate::tfidf::dot_of;
use crate::tfidf::terms_of_docs;
use crate::rank::Candidate;
use crate::rank::cand_count;
use crate::rank::cand_wf;
use crate::rank::has_index;
use crate::rank::is_candidate;
use crate::rank::rank_candidates;
use crate::rank::sorted_desc;

verus! {

/// Why a query produced no new result.
#[derive(Clone, Copy, PartialEq, Eq, Structural, Debug)]
pub enum QueryError {
    /// The target index lies beyond the last segment.
    InvalidIndex,
    /// The corpus could not be vectorized.
    Vectorization(VectorizationError),
}

/// The outcome of one successful query: the target segment's index, the
/// squared norm of its weight vector, and the ranked candidates. Each
/// candidate's cosine score is exactly
/// `entry.dot / sqrt(target_norm_sq * entry.norm_sq)`.
pub struct SimilarityResult {
    /// The queried segment.
    pub target: usize,
    /// Squared norm of the target's weight vector.
    pub target_norm_sq: u128,
    /// At most five candidates, by descending score, every score positive,
    /// never the target itself.
    pub entries: Vec<Candidate>,
}

/// A stored result is fully valid for the corpus it was computed from:
/// the target in range with its true norm; every entry a real candidate
/// (in range, not the target, positively scored, with its exact dot
/// product and norm); never more than five entries, and exactly the
/// candidate count when fewer; scores descending; no index twice; and
/// nothing left out that outranks anything kept.
pub open spec fn result_wf(segs: Seq<Seq<Seq<char>>>, res: SimilarityResult) -> bool {
    let dt = corpus_terms(segs);
    let t = res.target as int;
    let nc = cand_count(dt, t, dt.len() as int);
    &&& t < segs.len()
    &&& res.target_norm_sq == norm_sq_of(dt, t)
    &&& res.entries@.len() <= 5
    &&& res.entries@.len() == (if nc < 5 {
        nc
    } else {
        5nat
    })
    &&& forall|k: int| 0 <= k < res.entries@.len() ==> cand_wf(dt, t, #[trigger] res.entries@[k])
    &&& sorted_desc(res.entries@)
    &&& forall|k1: int, k2: int|
        0 <= k1 < k2 < res.entries@.len() ==> res.entries@[k1].index != res.entries@[k2].index
    &&& forall|i: int, k: int|
        is_candidate(dt, t, i) && !has_index(res.entries@, i) && 0 <= k < res.entries@.len()
            ==> (res.entries@[k].dot * res.entries@[k].dot) * norm_sq_of(dt, i) >= (dot_of(
            dt,
            t,
            i,
        ) * dot_of(dt, t, i)) * res.entries@[k].norm_sq
}

/// The result store: it holds the outcome of the most recent successful
/// query, and nothing else ever writes it. A failed query leaves it
/// untouched.
pub struct SimilarityStore {
    similar: Option<SimilarityResult>,
}

impl SimilarityStore {
    /// What the store currently holds.
    pub closed spec fn stored(self) -> Option<SimilarityResult> {
        self.similar
    }

    /// A fresh store holds no result.
    pub fn new() -> (s: SimilarityStore)
        ensures
            s.stored() is None,
    {
        SimilarityStore { similar: None }
    }

    /// Read access for the presentation layer.
    pub fn current(&self) -> (r: &Option<SimilarityResult>)
        ensures
            *r == self.stored(),
    {
        &self.similar
    }

    /// Finds the segments most similar to `target_idx` and stores the
    /// ranked result.
    ///
    /// Each segment is an ordered sequence of tokens; each token
    /// contributes its original text unchanged. Success is owed exactly
    /// when the target index is in range and the corpus holds between one
    /// and [`MAX_CORPUS_TERMS`] terms; on success the store is overwritten
    /// with a fully valid result for this corpus and target, and on any
    /// failure it is left exactly as it was.
    pub fn compute_similar_segments(
        &mut self,
        segments: &Vec<Vec<String>>,
        target_idx: usize,
    ) -> (r: Result<(), QueryError>)
        ensures
            ({
                let segs = segments.deep_view();
                let dt = corpus_terms(segs);
                &&& (r == Result::<(), QueryError>::Err(QueryError::InvalidIndex) <==> target_idx
                    >= segs.len())
                &&& (r == Result::<(), QueryError>::Err(
                    QueryError::Vectorization(VectorizationError::CorpusTooLarge),
                ) <==> target_idx < segs.len() && flat_terms(dt).len() > MAX_CORPUS_TERMS)
                &&& (r == Result::<(), QueryError>::Err(
                    QueryError::Vectorization(VectorizationError::NoTerms),
                ) <==> target_idx < segs.len() && flat_terms(dt).len() == 0)
                &&& (r is Ok <==> target_idx < segs.len() && 0 < flat_terms(dt).len()
                    <= MAX_CORPUS_TERMS)
                &&& (r is Err ==> final(self).stored() == old(self).stored())
                &&& (r is Ok ==> (final(self).stored() matches Some(res) ==> res.target
                    == target_idx && result_wf(segs, res)))
                &&& (r is Ok ==> final(self).stored() is Some)
            }),
    {
        let ghost segs = segments.deep_view();
        let ghost dt = corpus_terms(segs);
        let n = segments.len();
        if target_idx >= n {
            return Err(QueryError::InvalidIndex);
        }
        let docs = build_documents(segments);
        proof {
            assert forall|i: int| 0 <= i < docs.deep_view().len() implies terms_of_docs(
                docs.deep_view(),
            )[i] == dt[i] by {
                crate::tfidf::lemma_chars_deep_view(docs@[i]);
                assert(docs.deep_view()[i] == docs@[i]@);
                assert(docs@[i]@ == join_tokens(segs[i]));
                assert(dt[i] == split_terms(join_tokens(segs[i])));
            }
            assert(terms_of_docs(docs.deep_view()) =~= dt);
        }
        let m = match TfidfMatrix::fit(&docs) {
            Err(e) => {
                return Err(QueryError::Vectorization(e));
            },
            Ok(m) => m,
        };
        let entries = rank_candidates(&m, target_idx);
        let target_norm_sq = m.norm_sq[target_idx];
        let res = SimilarityResult { target: target_idx, target_norm_sq, entries };
        self.similar = Some(res);
        Ok(())
    }
}

} // verus!
