//! The corpus builder: documents from token sequences, and the whitespace
//! splitter that turns a document back into its terms.

use vstd::prelude::*;
use vstd::string::StrSliceExecFns;

verus! {

/// The characters the splitter treats as whitespace: the ASCII blank set.
pub open spec fn is_ws(c: char) -> bool {
    c == ' ' || c == '\t' || c == '\n' || c == '\r'
}

/// Runtime test for [`is_ws`].
pub fn is_ws_char(c: char) -> (b: bool)
    ensures
        b == is_ws(c),
{
    c == ' ' || c == '\t' || c == '\n' || c == '\r'
}

/// The document derived from one segment: its tokens joined by single spaces,
/// in token order. An empty segment yields the empty document.
pub open spec fn join_tokens(tokens: Seq<Seq<char>>) -> Seq<char>
    decreases tokens.len(),
{
    if tokens.len() == 0 {
        Seq::empty()
    } else if tokens.len() == 1 {
        tokens[0]
    } else {
        join_tokens(tokens.drop_last()) + seq![' '] + tokens.last()
    }
}

/// Length of the leading run of non-whitespace characters of `s`.
pub open spec fn lead_run(s: Seq<char>) -> nat
    decreases s.len(),
{
    if s.len() == 0 || is_ws(s[0]) {
        0
    } else {
        1 + lead_run(s.drop_first())
    }
}

proof fn lemma_lead_run_le_len(s: Seq<char>)
    ensures
        lead_run(s) <= s.len(),
    decreases s.len(),
{
    if s.len() > 0 && !is_ws(s[0]) {
        lemma_lead_run_le_len(s.drop_first());
    }
}

/// The terms of a document: its maximal runs of non-whitespace characters,
/// in order. Every term is non-empty.
pub open spec fn split_terms(s: Seq<char>) -> Seq<Seq<char>>
    decreases s.len(),
    via split_terms_decreases
{
    if s.len() == 0 {
        Seq::empty()
    } else if is_ws(s[0]) {
        split_terms(s.drop_first())
    } else {
        let r = 1 + lead_run(s.drop_first());
        seq![s.take(r as int)] + split_terms(s.skip(r as int))
    }
}

#[via_fn]
proof fn split_terms_decreases(s: Seq<char>) {
    if s.len() > 0 && !is_ws(s[0]) {
        lemma_lead_run_le_len(s.drop_first());
    }
}

/// The term sequences of a whole corpus of segments: each segment's tokens
/// joined into one document, and that document split back into terms.
pub open spec fn corpus_terms(segs: Seq<Seq<Seq<char>>>) -> Seq<Seq<Seq<char>>> {
    segs.map(|i: int, toks: Seq<Seq<char>>| split_terms(join_tokens(toks)))
}

/// Converts one token's text to its sequence of characters.
pub fn token_chars(s: &String) -> (r: Vec<char>)
    ensures
        r@ == s@,
{
    let st = s.as_str();
    let n = st.unicode_len();
    let mut r: Vec<char> = Vec::new();
    let mut i: usize = 0;
    while i < n
        invariant
            i <= n,
            n == s@.len(),
            st@ == s@,
            r@ == s@.take(i as int),
        decreases n - i,
    {
        let c = st.get_char(i);
        proof {
            assert(s@.take(i + 1) =~= s@.take(i as int).push(s@[i as int]));
        }
        r.push(c);
        i = i + 1;
    }
    proof {
        assert(s@.take(n as int) =~= s@);
    }
    r
}

/// Builds one document from one segment's tokens.
fn join_segment(seg: &Vec<String>) -> (doc: Vec<char>)
    ensures
        doc@ == join_tokens(seg.deep_view()),
{
    let ghost toks = seg.deep_view();
    let mut doc: Vec<char> = Vec::new();
    let mut j: usize = 0;
    proof {
        assert(toks.take(0) =~= Seq::<Seq<char>>::empty());
    }
    while j < seg.len()
        invariant
            j <= seg.len(),
            toks == seg.deep_view(),
            toks.len() == seg@.len(),
            forall|k: int| 0 <= k < seg@.len() ==> toks[k] == seg@[k]@,
            doc@ == join_tokens(toks.take(j as int)),
        decreases seg.len() - j,
    {
        if j > 0 {
            doc.push(' ');
        }
        let tc = token_chars(&seg[j]);
        let mut p: usize = 0;
        let ghost base = doc@;
        while p < tc.len()
            invariant
                p <= tc@.len(),
                tc@ == toks[j as int],
                doc@ == base + tc@.take(p as int),
            decreases tc.len() - p,
        {
            let c = tc[p];
            proof {
                assert(base + tc@.take(p + 1) =~= (base + tc@.take(p as int)).push(tc@[p as int]));
            }
            doc.push(c);
            p = p + 1;
        }
        proof {
            assert(tc@.take(tc@.len() as int) =~= tc@);
            let pre = toks.take(j + 1);
            assert(pre.drop_last() =~= toks.take(j as int));
            assert(pre.last() == toks[j as int]);
            if j == 0 {
                assert(join_tokens(pre) == toks[0]);
                assert(doc@ =~= toks[0]);
            } else {
                assert(join_tokens(pre) == join_tokens(toks.take(j as int)) + seq![' '] + toks[j as int]);
                assert(doc@ =~= join_tokens(toks.take(j as int)) + seq![' '] + toks[j as int]);
            }
        }
        j = j + 1;
    }
    proof {
        assert(toks.take(seg@.len() as int) =~= toks);
    }
    doc
}

/// The corpus builder: one document per segment, index-aligned, each the
/// single-space join of that segment's tokens in order.
pub fn build_documents(segments: &Vec<Vec<String>>) -> (docs: Vec<Vec<char>>)
    ensures
        docs@.len() == segments@.len(),
        forall|i: int|
            0 <= i < segments@.len() ==> docs@[i]@ == join_tokens(segments.deep_view()[i]),
{
    let mut docs: Vec<Vec<char>> = Vec::new();
    let mut i: usize = 0;
    while i < segments.len()
        invariant
            i <= segments@.len(),
            docs@.len() == i,
            forall|k: int|
                0 <= k < i ==> docs@[k]@ == join_tokens(segments.deep_view()[k]),
        decreases segments.len() - i,
    {
        let doc = join_segment(&segments[i]);
        proof {
            assert(segments.deep_view()[i as int] == segments@[i as int].deep_view());
        }
        docs.push(doc);
        i = i + 1;
    }
    docs
}

/// Copies the characters of `doc` between `from` and `to`.
pub(crate) fn copy_range(doc: &Vec<char>, from: usize, to: usize) -> (r: Vec<char>)
    requires
        from <= to <= doc@.len(),
    ensures
        r@ == doc@.subrange(from as int, to as int),
{
    let mut r: Vec<char> = Vec::new();
    let mut k: usize = from;
    while k < to
        invariant
            from <= k <= to <= doc@.len(),
            r@ == doc@.subrange(from as int, k as int),
        decreases to - k,
    {
        proof {
            assert(doc@.subrange(from as int, k + 1) =~= doc@.subrange(from as int, k as int).push(
                doc@[k as int],
            ));
        }
        r.push(doc[k]);
        k = k + 1;
    }
    r
}

/// The whitespace splitter: the terms of one document, per [`split_terms`].
pub fn split_document(doc: &Vec<char>) -> (ts: Vec<Vec<char>>)
    ensures
        ts.deep_view() == split_terms(doc@),
{
    let n = doc.len();
    let mut ts: Vec<Vec<char>> = Vec::new();
    let mut i: usize = 0;
    proof {
        assert(doc@.skip(0) =~= doc@);
        assert(ts.deep_view() + split_terms(doc@) =~= split_terms(doc@));
    }
    while i < n
        invariant
            i <= n,
            n == doc@.len(),
            split_terms(doc@) == ts.deep_view() + split_terms(doc@.skip(i as int)),
        decreases n - i,
    {
        if is_ws_char(doc[i]) {
            proof {
                assert(doc@.skip(i as int).drop_first() =~= doc@.skip(i + 1));
                assert(split_terms(doc@.skip(i as int)) == split_terms(doc@.skip(i + 1)));
            }
            i = i + 1;
        } else {
            let mut j = i + 1;
            proof {
                assert(doc@.skip(i as int).drop_first() =~= doc@.skip(i + 1));
                assert(lead_run(doc@.skip(i as int)) == 1 + lead_run(doc@.skip(i + 1)));
            }
            while j < n && !is_ws_char(doc[j])
                invariant
                    i < j <= n,
                    n == doc@.len(),
                    lead_run(doc@.skip(i as int)) == (j - i) + lead_run(doc@.skip(j as int)),
                decreases n - j,
            {
                proof {
                    assert(doc@.skip(j as int).drop_first() =~= doc@.skip(j + 1));
                    assert(lead_run(doc@.skip(j as int)) == 1 + lead_run(doc@.skip(j + 1)));
                }
                j = j + 1;
            }
            proof {
                if j == n {
                    assert(doc@.skip(j as int) =~= Seq::<char>::empty());
                }
                assert(lead_run(doc@.skip(j as int)) == 0);
                assert(lead_run(doc@.skip(i as int)) == j - i);
            }
            let term = copy_range(doc, i, j);
            proof {
                let s = doc@.skip(i as int);
                let r = 1 + lead_run(s.drop_first());
                assert(s.drop_first() =~= doc@.skip(i + 1));
                assert(r == lead_run(s));
                assert(split_terms(s) == seq![s.take(r as int)] + split_terms(s.skip(r as int)));
                assert(s.take(r as int) =~= doc@.subrange(i as int, j as int));
                assert(s.skip(r as int) =~= doc@.skip(j as int));
                let tsd = ts.deep_view();
                assert(ts@.push(term).len() == ts@.len() + 1);
                assert forall|q: int| 0 <= q < ts@.len() + 1 implies ts@.push(term)[q].deep_view()
                    == tsd.push(term@)[q] by {
                    if q == ts@.len() {
                        assert(term.deep_view() =~= term@);
                    }
                }
                assert(Seq::new(ts@.push(term).len(), |q: int| ts@.push(term)[q].deep_view())
                    =~= tsd.push(term@));
                assert(tsd.push(term@) + split_terms(doc@.skip(j as int)) =~= tsd + split_terms(
                    doc@.skip(i as int),
                ));
            }
            ts.push(term);
            i = j;
        }
    }
    proof {
        assert(doc@.skip(n as int) =~= Seq::<char>::empty());
        assert(ts.deep_view() + split_terms(doc@.skip(n as int)) =~= ts.deep_view());
    }
    ts
}

} // verus!
