//! Page-level similarity: one vocabulary per comparison group, then cosine
//! similarity of the pages' term vectors and the most similar candidate.

use vstd::prelude::*;
use crate::document::Page;
use crate::normalize::tokens;
use crate::similarity::{
    above_ratio, cos_sq_den, cos_sq_num, cosine, cosine_sim, is_unit, lemma_disjoint_similarity,
    lemma_norm_sq_ge_entry, lemma_self_similarity, lemma_similarity_at_most_unit, less_similar,
    norm_sq, Similarity,
};
use crate::vector::{
    add_page, bodies, count_vector, extend_vocabulary, lemma_count_vector_total,
    lemma_occurrences_le, lemma_occurrences_positive, lemma_tokens_len, lemma_vocabulary_covers,
    lemma_vocabulary_distinct, page_to_vec, total, vocabulary_of, Vocabulary,
};

verus! {

/// The similarity of two bodies over the vocabulary of the pair.
pub open spec fn pair_similarity(b1: Seq<char>, b2: Seq<char>) -> Similarity {
    let v = vocabulary_of(seq![b1, b2]);
    cosine(count_vector(tokens(b1), v), count_vector(tokens(b2), v))
}

/// The vocabulary of a reference body followed by candidate bodies.
pub open spec fn group_vocabulary(reference: Seq<char>, candidates: Seq<Seq<char>>) -> Seq<
    Seq<char>,
> {
    vocabulary_of(seq![reference] + candidates)
}

/// The similarity of candidate `j` to the reference, over the group's vocabulary.
pub open spec fn candidate_similarity(
    reference: Seq<char>,
    candidates: Seq<Seq<char>>,
    j: int,
) -> Similarity {
    let v = group_vocabulary(reference, candidates);
    cosine(count_vector(tokens(reference), v), count_vector(tokens(candidates[j]), v))
}

/// Index `r` is the first candidate of greatest similarity.
pub open spec fn is_first_best(reference: Seq<char>, candidates: Seq<Seq<char>>, r: int) -> bool {
    &&& 0 <= r < candidates.len()
    &&& forall|j: int|
        0 <= j < r ==> less_similar(
            #[trigger] candidate_similarity(reference, candidates, j),
            candidate_similarity(reference, candidates, r),
        )
    &&& forall|j: int|
        r < j < candidates.len() ==> !less_similar(
            candidate_similarity(reference, candidates, r),
            #[trigger] candidate_similarity(reference, candidates, j),
        )
}

/// `|a|^2 <= (sum of a)^2`.
proof fn lemma_norm_sq_le_total_sq(a: Seq<u32>)
    ensures
        norm_sq(a) <= total(a) * total(a),
        total(a) >= 0,
    decreases a.len(),
{
    if a.len() > 0 {
        lemma_norm_sq_le_total_sq(a.drop_last());
        let t = total(a.drop_last());
        let x = a.last() as int;
        assert(norm_sq(a) == norm_sq(a.drop_last()) + x * x);
        assert(t * t + x * x <= (t + x) * (t + x)) by (nonlinear_arith)
            requires
                t >= 0,
                x >= 0,
        ;
    }
}

/// A count vector of at most `u32::MAX` tokens has a norm that fits 64 bits.
proof fn lemma_norm_sq_fits(a: Seq<u32>)
    requires
        total(a) <= u32::MAX,
    ensures
        norm_sq(a) <= u64::MAX,
{
    lemma_norm_sq_le_total_sq(a);
    let t = total(a);
    assert(t * t <= u64::MAX) by (nonlinear_arith)
        requires
            0 <= t <= u32::MAX,
    ;
}

/// The similarity of two pages, over a vocabulary built from the two.
pub fn get_page_similarity(page1: &Page, page2: &Page) -> (r: Similarity)
    requires
        page1.content@.len() <= u32::MAX,
        page2.content@.len() <= u32::MAX,
    ensures
        r == pair_similarity(page1.content@, page2.content@),
{
    let mut vocab = Vocabulary::new();
    add_page(&mut vocab, page1);
    add_page(&mut vocab, page2);
    let ghost pair = seq![page1.content@, page2.content@];
    assert(pair.drop_last() =~= seq![page1.content@]);
    assert(seq![page1.content@].drop_last() =~= Seq::<Seq<char>>::empty());
    assert(vocabulary_of(seq![page1.content@]) == extend_vocabulary(
        vocabulary_of(Seq::<Seq<char>>::empty()),
        tokens(page1.content@),
    ));
    assert(vocab@ == vocabulary_of(pair));
    let v1 = page_to_vec(page1, &vocab);
    let v2 = page_to_vec(page2, &vocab);
    proof {
        lemma_norm_sq_fits(v1.counts@);
        lemma_norm_sq_fits(v2.counts@);
    }
    cosine_sim(&v1.counts, &v2.counts)
}

/// Ratios with positive denominators: `n1/d1 <= n2/d2 < n3/d3` gives `n1/d1 < n3/d3`.
proof fn lemma_ratio_le_lt(n1: int, d1: int, n2: int, d2: int, n3: int, d3: int)
    requires
        d1 > 0,
        d2 > 0,
        d3 > 0,
        n1 * d2 <= n2 * d1,
        n2 * d3 < n3 * d2,
    ensures
        n1 * d3 < n3 * d1,
{
    assert(n1 * d2 * d3 <= n2 * d1 * d3) by (nonlinear_arith)
        requires
            n1 * d2 <= n2 * d1,
            d3 > 0,
    ;
    assert(n2 * d3 * d1 < n3 * d2 * d1) by (nonlinear_arith)
        requires
            n2 * d3 < n3 * d2,
            d1 > 0,
    ;
    assert(n1 * d3 * d2 < n3 * d1 * d2) by (nonlinear_arith)
        requires
            n1 * d2 * d3 <= n2 * d1 * d3,
            n2 * d3 * d1 < n3 * d2 * d1,
    ;
    assert(n1 * d3 < n3 * d1) by (nonlinear_arith)
        requires
            n1 * d3 * d2 < n3 * d1 * d2,
            d2 > 0,
    ;
}

proof fn lemma_less_similar_trans(s: Similarity, t: Similarity, u: Similarity)
    requires
        !less_similar(t, s),
        less_similar(t, u),
    ensures
        less_similar(s, u),
{
    assert(cos_sq_den(s) > 0 && cos_sq_den(t) > 0 && cos_sq_den(u) > 0) by (nonlinear_arith);
    lemma_ratio_le_lt(
        cos_sq_num(s),
        cos_sq_den(s),
        cos_sq_num(t),
        cos_sq_den(t),
        cos_sq_num(u),
        cos_sq_den(u),
    );
}

/// The index of the candidate most similar to `primary_page`, over one
/// vocabulary built from `primary_page` and then the candidates in order.
/// Ties go to the lowest index; with no candidates the result is 0.
pub fn get_most_similar_page(primary_page: &Page, pages: &Vec<Page>) -> (r: usize)
    requires
        primary_page.content@.len() <= u32::MAX,
        forall|j: int| 0 <= j < pages@.len() ==> (#[trigger] pages@[j]).content@.len() <= u32::MAX,
    ensures
        pages@.len() == 0 ==> r == 0,
        pages@.len() > 0 ==> is_first_best(primary_page.content@, bodies(pages@), r as int),
{
    let ghost reference = primary_page.content@;
    let ghost cands = bodies(pages@);
    let mut vocab = Vocabulary::new();
    add_page(&mut vocab, primary_page);
    assert(seq![reference].drop_last() =~= Seq::<Seq<char>>::empty());
    assert(vocabulary_of(seq![reference]) == extend_vocabulary(
        vocabulary_of(Seq::<Seq<char>>::empty()),
        tokens(reference),
    ));
    assert(seq![reference] + cands.subrange(0, 0) =~= seq![reference]);
    let mut i: usize = 0;
    while i < pages.len()
        invariant
            i <= pages@.len(),
            cands == bodies(pages@),
            vocab.wf(),
            vocab@ == vocabulary_of(seq![reference] + cands.subrange(0, i as int)),
        decreases pages.len() - i,
    {
        assert((seq![reference] + cands.subrange(0, i + 1)).drop_last() =~= seq![reference]
            + cands.subrange(0, i as int));
        add_page(&mut vocab, &pages[i]);
        i = i + 1;
    }
    assert(cands.subrange(0, pages@.len() as int) =~= cands);
    let primary_vec = page_to_vec(primary_page, &vocab);
    proof {
        lemma_norm_sq_fits(primary_vec.counts@);
    }
    let mut best_index: usize = 0;
    let mut best = Similarity { dot: 0, norm_sq_a: 0, norm_sq_b: 0 };
    let mut j: usize = 0;
    while j < pages.len()
        invariant
            j <= pages@.len(),
            cands == bodies(pages@),
            vocab.wf(),
            vocab@ == group_vocabulary(reference, cands),
            primary_vec.counts@ == count_vector(tokens(reference), vocab@),
            norm_sq(primary_vec.counts@) <= u64::MAX,
            forall|k: int| 0 <= k < pages@.len() ==> (#[trigger] pages@[k]).content@.len() <= u32::MAX,
            j > 0 ==> best_index < j,
            j > 0 ==> best == candidate_similarity(reference, cands, best_index as int),
            forall|k: int|
                0 <= k < best_index ==> less_similar(
                    #[trigger] candidate_similarity(reference, cands, k),
                    candidate_similarity(reference, cands, best_index as int),
                ),
            forall|k: int|
                best_index < k < j ==> !less_similar(
                    candidate_similarity(reference, cands, best_index as int),
                    #[trigger] candidate_similarity(reference, cands, k),
                ),
            j == 0 ==> best_index == 0,
        decreases pages.len() - j,
    {
        let cur_vec = page_to_vec(&pages[j], &vocab);
        assert(cands[j as int] == pages@[j as int].content@);
        proof {
            lemma_norm_sq_fits(cur_vec.counts@);
        }
        let cur = cosine_sim(&primary_vec.counts, &cur_vec.counts);
        assert(cur == candidate_similarity(reference, cands, j as int));
        if j == 0 || best.is_less_than(&cur) {
            proof {
                if j > 0 {
                    assert forall|k: int| 0 <= k < j implies less_similar(
                        #[trigger] candidate_similarity(reference, cands, k),
                        cur,
                    ) by {
                        let sk = candidate_similarity(reference, cands, k);
                        if k < best_index {
                            assert(less_similar(sk, best));
                            assert(!less_similar(best, sk)) by (nonlinear_arith)
                                requires
                                    less_similar(sk, best),
                            ;
                            lemma_less_similar_trans(sk, best, cur);
                        } else if k > best_index {
                            lemma_less_similar_trans(sk, best, cur);
                        }
                    }
                }
            }
            best_index = j;
            best = cur;
        }
        j = j + 1;
    }
    best_index
}

/// Pages with no token in common have similarity zero.
pub proof fn lemma_disjoint_pages(b1: Seq<char>, b2: Seq<char>)
    requires
        forall|i: int| 0 <= i < tokens(b1).len() ==> !tokens(b2).contains(#[trigger] tokens(b1)[i]),
    ensures
        cos_sq_num(pair_similarity(b1, b2)) == 0,
{
    let v = vocabulary_of(seq![b1, b2]);
    let x = count_vector(tokens(b1), v);
    let y = count_vector(tokens(b2), v);
    assert forall|i: int| 0 <= i < x.len() implies x[i] == 0 || y[i] == 0 by {
        lemma_occurrences_positive(tokens(b1), v[i]);
        lemma_occurrences_positive(tokens(b2), v[i]);
        if tokens(b1).contains(v[i]) {
            let k = choose|k: int| 0 <= k < tokens(b1).len() && tokens(b1)[k] == v[i];
            assert(!tokens(b2).contains(tokens(b1)[k]));
        }
    }
    lemma_disjoint_similarity(x, y);
}

/// A body's count vector over its group's vocabulary has a norm that fits 64 bits.
proof fn lemma_group_norm_fits(reference: Seq<char>, candidates: Seq<Seq<char>>, b: Seq<char>)
    requires
        b.len() <= u32::MAX,
    ensures
        norm_sq(count_vector(tokens(b), group_vocabulary(reference, candidates))) <= u64::MAX,
{
    let v = group_vocabulary(reference, candidates);
    lemma_vocabulary_distinct(seq![reference] + candidates);
    lemma_tokens_len(b);
    lemma_count_vector_total(tokens(b), v);
    lemma_norm_sq_fits(count_vector(tokens(b), v));
}

/// A candidate identical to the reference (whose body has at least one
/// token) has similarity exactly one, above 0.98; the search returns it, or an
/// earlier candidate whose similarity ties with it exactly.
pub proof fn lemma_identical_candidate(
    reference: Seq<char>,
    candidates: Seq<Seq<char>>,
    i: int,
    r: int,
)
    requires
        0 <= i < candidates.len(),
        candidates[i] == reference,
        tokens(reference).len() > 0,
        reference.len() <= u32::MAX,
        forall|j: int| 0 <= j < candidates.len() ==> (#[trigger] candidates[j]).len() <= u32::MAX,
        is_first_best(reference, candidates, r),
    ensures
        is_unit(candidate_similarity(reference, candidates, i)),
        above_ratio(candidate_similarity(reference, candidates, i), 49, 50),
        r <= i,
        is_unit(candidate_similarity(reference, candidates, r)),
{
    let group = seq![reference] + candidates;
    let v = group_vocabulary(reference, candidates);
    let ts = tokens(reference);
    let x = count_vector(ts, v);
    lemma_group_norm_fits(reference, candidates, reference);
    assert(group[0] == reference);
    lemma_vocabulary_covers(group, 0, 0);
    let k = choose|k: int| 0 <= k < v.len() && v[k] == ts[0];
    lemma_occurrences_positive(ts, ts[0]);
    assert(ts.contains(ts[0]));
    lemma_occurrences_le(ts, ts[0]);
    lemma_tokens_len(reference);
    assert(x[k] >= 1);
    lemma_norm_sq_ge_entry(x, k);
    assert(x[k] * x[k] >= 1) by (nonlinear_arith)
        requires
            x[k] >= 1,
    ;
    lemma_self_similarity(x);
    let si = candidate_similarity(reference, candidates, i);
    assert(si == cosine(x, x));
    let sr = candidate_similarity(reference, candidates, r);
    lemma_group_norm_fits(reference, candidates, candidates[r]);
    lemma_similarity_at_most_unit(x, count_vector(tokens(candidates[r]), v));
    assert(cos_sq_den(si) > 0 && cos_sq_den(sr) > 0) by (nonlinear_arith);
    if r > i {
        assert(less_similar(si, sr));
        assert(false) by (nonlinear_arith)
            requires
                cos_sq_num(si) == cos_sq_den(si),
                cos_sq_den(si) > 0,
                cos_sq_num(si) * cos_sq_den(sr) < cos_sq_num(sr) * cos_sq_den(si),
                cos_sq_num(sr) <= cos_sq_den(sr),
        ;
    }
    if r < i {
        assert(!less_similar(sr, si));
        assert(cos_sq_num(sr) >= cos_sq_den(sr)) by (nonlinear_arith)
            requires
                cos_sq_num(si) == cos_sq_den(si),
                cos_sq_den(si) > 0,
                cos_sq_num(sr) * cos_sq_den(si) >= cos_sq_num(si) * cos_sq_den(sr),
        ;
    }
    assert(49 * 49 * cos_sq_den(si) < 50 * 50 * cos_sq_num(si)) by (nonlinear_arith)
        requires
            cos_sq_num(si) == cos_sq_den(si),
            cos_sq_den(si) > 0,
    ;
}

/// Two pages with the same body (of at least one token) have similarity
/// exactly one, which is above 0.98.
pub proof fn lemma_identical_pages(b: Seq<char>)
    requires
        tokens(b).len() > 0,
        b.len() <= u32::MAX,
    ensures
        is_unit(pair_similarity(b, b)),
        above_ratio(pair_similarity(b, b), 49, 50),
{
    let pair = seq![b, b];
    let v = vocabulary_of(pair);
    let ts = tokens(b);
    let x = count_vector(ts, v);
    lemma_vocabulary_distinct(pair);
    lemma_tokens_len(b);
    lemma_count_vector_total(ts, v);
    lemma_norm_sq_fits(x);
    assert(pair[0] == b);
    lemma_vocabulary_covers(pair, 0, 0);
    let k = choose|k: int| 0 <= k < v.len() && v[k] == ts[0];
    lemma_occurrences_positive(ts, ts[0]);
    assert(ts.contains(ts[0]));
    lemma_occurrences_le(ts, ts[0]);
    assert(x[k] >= 1);
    lemma_norm_sq_ge_entry(x, k);
    assert(x[k] * x[k] >= 1) by (nonlinear_arith)
        requires
            x[k] >= 1,
    ;
    lemma_self_similarity(x);
    let s = pair_similarity(b, b);
    assert(s == cosine(x, x));
    assert(cos_sq_den(s) > 0) by (nonlinear_arith);
    assert(49 * 49 * cos_sq_den(s) < 50 * 50 * cos_sq_num(s)) by (nonlinear_arith)
        requires
            cos_sq_num(s) == cos_sq_den(s),
            cos_sq_den(s) > 0,
    ;
}

} // verus!
