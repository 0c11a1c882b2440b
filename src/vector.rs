//! The vector space: a vocabulary shared by a group of pages, and each
//! page's term counts over it.

use vstd::prelude::*;
use crate::document::Page;
use crate::normalize::{
    clean_tokens, content_words, is_plain_word, lemma_words_ends, lower, token_views, tokens, words,
};
use crate::stop_words::is_stop_word;
use crate::text::{chars_of, is_white_space};

verus! {

/// A vocabulary: each term's index is its position in `terms`.
pub struct Vocabulary {
    pub terms: Vec<Vec<char>>,
}

impl View for Vocabulary {
    type V = Seq<Seq<char>>;

    open spec fn view(&self) -> Seq<Seq<char>> {
        token_views(self.terms@)
    }
}

impl Vocabulary {
    /// No term is listed twice.
    pub open spec fn wf(&self) -> bool {
        self@.no_duplicates()
    }

    pub fn new() -> (r: Vocabulary)
        ensures
            r@ == Seq::<Seq<char>>::empty(),
            r.wf(),
    {
        let r = Vocabulary { terms: Vec::new() };
        assert(r@ =~= Seq::<Seq<char>>::empty());
        r
    }

    /// The number of terms.
    pub fn len(&self) -> (r: usize)
        ensures
            r == self@.len(),
    {
        self.terms.len()
    }

    /// The index of `t`, if it is a term.
    pub fn index_of_chars(&self, t: &Vec<char>) -> (r: Option<usize>)
        requires
            self.wf(),
        ensures
            match r {
                Some(i) => i < self@.len() && self@[i as int] == t@,
                None => !self@.contains(t@),
            },
    {
        let mut i: usize = 0;
        while i < self.terms.len()
            invariant
                i <= self@.len(),
                self@.len() == self.terms@.len(),
                forall|k: int| 0 <= k < i ==> self@[k] != t@,
            decreases self.terms.len() - i,
        {
            if vec_chars_eq(&self.terms[i], t) {
                return Some(i);
            }
            i = i + 1;
        }
        None
    }

    /// The index of the term spelled by `word`, if it is one.
    pub fn index_of(&self, word: &str) -> (r: Option<usize>)
        requires
            self.wf(),
        ensures
            match r {
                Some(i) => i < self@.len() && self@[i as int] == word@,
                None => !self@.contains(word@),
            },
    {
        self.index_of_chars(&chars_of(word))
    }

    /// Adds `t` as the next index unless it is already a term.
    pub fn insert(&mut self, t: Vec<char>)
        requires
            old(self).wf(),
        ensures
            final(self).wf(),
            final(self)@ == if old(self)@.contains(t@) {
                old(self)@
            } else {
                old(self)@.push(t@)
            },
    {
        match self.index_of_chars(&t) {
            Some(_) => {},
            None => {
                let ghost tv = t@;
                self.terms.push(t);
                assert(self@ =~= old(self)@.push(tv));
            },
        }
    }
}

fn vec_chars_eq(a: &Vec<char>, b: &Vec<char>) -> (r: bool)
    ensures
        r == (a@ == b@),
{
    if a.len() != b.len() {
        return false;
    }
    let mut i: usize = 0;
    while i < a.len()
        invariant
            i <= a@.len() == b@.len(),
            forall|k: int| 0 <= k < i ==> a@[k] == b@[k],
        decreases a.len() - i,
    {
        if a[i] != b[i] {
            return false;
        }
        i = i + 1;
    }
    assert(a@ =~= b@);
    true
}

/// `v` extended by each token of `ts` not yet in it, in order.
pub open spec fn extend_vocabulary(v: Seq<Seq<char>>, ts: Seq<Seq<char>>) -> Seq<Seq<char>>
    decreases ts.len(),
{
    if ts.len() == 0 {
        v
    } else {
        let w = extend_vocabulary(v, ts.drop_last());
        if w.contains(ts.last()) {
            w
        } else {
            w.push(ts.last())
        }
    }
}

/// The vocabulary of a group of bodies: tokens in order of first occurrence,
/// bodies taken in order.
pub open spec fn vocabulary_of(bodies: Seq<Seq<char>>) -> Seq<Seq<char>>
    decreases bodies.len(),
{
    if bodies.len() == 0 {
        seq![]
    } else {
        extend_vocabulary(vocabulary_of(bodies.drop_last()), tokens(bodies.last()))
    }
}

pub open spec fn bodies(pages: Seq<Page>) -> Seq<Seq<char>> {
    pages.map_values(|p: Page| p.content@)
}

fn add_tokens(v: &mut Vocabulary, ts: Vec<Vec<char>>)
    requires
        old(v).wf(),
    ensures
        final(v).wf(),
        final(v)@ == extend_vocabulary(old(v)@, token_views(ts@)),
{
    let mut i: usize = 0;
    while i < ts.len()
        invariant
            i <= ts@.len(),
            v.wf(),
            v@ == extend_vocabulary(old(v)@, token_views(ts@.subrange(0, i as int))),
        decreases ts.len() - i,
    {
        assert(token_views(ts@.subrange(0, i + 1)).drop_last() =~= token_views(
            ts@.subrange(0, i as int),
        ));
        v.insert(ts[i].clone());
        i = i + 1;
    }
    assert(ts@.subrange(0, ts@.len() as int) =~= ts@);
}

/// Adds the tokens of `page` to `v`, in order.
pub fn add_page(v: &mut Vocabulary, page: &Page)
    requires
        old(v).wf(),
    ensures
        final(v).wf(),
        final(v)@ == extend_vocabulary(old(v)@, tokens(page.content@)),
{
    let ts = clean_tokens(page.content.as_str());
    add_tokens(v, ts);
}

/// Builds one vocabulary over `pages`, in their order.
pub fn build_vocabulary(pages: &Vec<Page>) -> (r: Vocabulary)
    ensures
        r.wf(),
        r@ == vocabulary_of(bodies(pages@)),
{
    let mut v = Vocabulary::new();
    let mut i: usize = 0;
    while i < pages.len()
        invariant
            i <= pages@.len(),
            v.wf(),
            v@ == vocabulary_of(bodies(pages@.subrange(0, i as int))),
        decreases pages.len() - i,
    {
        assert(bodies(pages@.subrange(0, i + 1)).drop_last() =~= bodies(
            pages@.subrange(0, i as int),
        ));
        add_page(&mut v, &pages[i]);
        i = i + 1;
    }
    assert(pages@.subrange(0, pages@.len() as int) =~= pages@);
    v
}

/// How many times `t` occurs in `ts`.
pub open spec fn occurrences(ts: Seq<Seq<char>>, t: Seq<char>) -> nat
    decreases ts.len(),
{
    if ts.len() == 0 {
        0
    } else {
        occurrences(ts.drop_last(), t) + if ts.last() == t {
            1nat
        } else {
            0nat
        }
    }
}

/// For each term of `v`, its number of occurrences in `ts`.
pub open spec fn count_vector(ts: Seq<Seq<char>>, v: Seq<Seq<char>>) -> Seq<u32> {
    Seq::new(v.len(), |i: int| occurrences(ts, v[i]) as u32)
}

pub open spec fn total(s: Seq<u32>) -> int
    decreases s.len(),
{
    if s.len() == 0 {
        0
    } else {
        total(s.drop_last()) + s.last()
    }
}

/// A page's term-frequency vector, kept as integer counts: the frequency of
/// term `i` is `counts[i] / tokens`, and zero throughout when `tokens` is zero.
pub struct TermVector {
    pub counts: Vec<u32>,
    pub tokens: u32,
}

pub proof fn lemma_words_len(s: Seq<char>)
    ensures
        words(s).len() <= s.len(),
    decreases s.len(),
{
    if s.len() > 0 {
        lemma_words_len(s.drop_last());
        if s.len() >= 2 && !is_white_space(s[s.len() - 2]) {
            lemma_words_ends(s.drop_last());
        }
    }
}

pub proof fn lemma_content_words_len(ws: Seq<Seq<char>>)
    ensures
        content_words(ws).len() <= ws.len(),
    decreases ws.len(),
{
    if ws.len() > 0 {
        lemma_content_words_len(ws.drop_last());
    }
}

/// A body has no more tokens than characters.
pub proof fn lemma_tokens_len(s: Seq<char>)
    ensures
        tokens(s).len() <= s.len(),
{
    lemma_words_len(s);
    lemma_content_words_len(words(s));
}

pub proof fn lemma_occurrences_le(ts: Seq<Seq<char>>, t: Seq<char>)
    ensures
        occurrences(ts, t) <= ts.len(),
    decreases ts.len(),
{
    if ts.len() > 0 {
        lemma_occurrences_le(ts.drop_last(), t);
    }
}

proof fn lemma_total_update(s: Seq<u32>, i: int, x: u32)
    requires
        0 <= i < s.len(),
    ensures
        total(s.update(i, x)) == total(s) - s[i] + x,
    decreases s.len(),
{
    let u = s.update(i, x);
    if i == s.len() - 1 {
        assert(u.drop_last() =~= s.drop_last());
    } else {
        assert(u.drop_last() =~= s.drop_last().update(i, x));
        lemma_total_update(s.drop_last(), i, x);
    }
}

proof fn lemma_total_zeros(n: nat)
    ensures
        total(Seq::new(n, |i: int| 0u32)) == 0,
    decreases n,
{
    if n > 0 {
        assert(Seq::new(n, |i: int| 0u32).drop_last() =~= Seq::new((n - 1) as nat, |i: int| 0u32));
        lemma_total_zeros((n - 1) as nat);
    }
}

/// The term counts of `page` over `vocab`; tokens that are not terms are
/// counted in `tokens` and nowhere else.
pub fn page_to_vec(page: &Page, vocab: &Vocabulary) -> (r: TermVector)
    requires
        vocab.wf(),
        page.content@.len() <= u32::MAX,
    ensures
        r.counts@ == count_vector(tokens(page.content@), vocab@),
        r.tokens == tokens(page.content@).len(),
        total(r.counts@) <= r.tokens,
{
    let ts = clean_tokens(page.content.as_str());
    let ghost tv = token_views(ts@);
    proof {
        lemma_tokens_len(page.content@);
    }
    let n = vocab.len();
    let mut counts: Vec<u32> = Vec::new();
    let mut j: usize = 0;
    while j < n
        invariant
            j <= n == vocab@.len(),
            counts@ =~= Seq::new(j as nat, |i: int| 0u32),
        decreases n - j,
    {
        counts.push(0);
        j = j + 1;
    }
    proof {
        lemma_total_zeros(n as nat);
    }
    let mut k: usize = 0;
    while k < ts.len()
        invariant
            k <= ts@.len() == tv.len() <= u32::MAX,
            tv == token_views(ts@),
            vocab.wf(),
            counts@ =~= count_vector(tv.subrange(0, k as int), vocab@),
            total(counts@) <= k,
        decreases ts.len() - k,
    {
        let ghost pre = tv.subrange(0, k as int);
        let ghost next = tv.subrange(0, k + 1);
        assert(next.drop_last() =~= pre);
        assert(next.last() == ts@[k as int]@);
        match vocab.index_of_chars(&ts[k]) {
            Some(idx) => {
                proof {
                    lemma_occurrences_le(pre, vocab@[idx as int]);
                    lemma_total_update(counts@, idx as int, (counts@[idx as int] + 1) as u32);
                }
                let c = counts[idx];
                counts.set(idx, c + 1);
                assert forall|i: int| 0 <= i < vocab@.len() implies counts@[i] == occurrences(
                    next,
                    vocab@[i],
                ) as u32 by {
                    if i != idx {
                        assert(vocab@[i] != vocab@[idx as int]);
                    }
                }
            },
            None => {
                assert forall|i: int| 0 <= i < vocab@.len() implies counts@[i] == occurrences(
                    next,
                    vocab@[i],
                ) as u32 by {
                    assert(vocab@[i] != next.last());
                }
            },
        }
        k = k + 1;
    }
    assert(tv.subrange(0, ts@.len() as int) =~= tv);
    assert(tv =~= tokens(page.content@));
    TermVector { counts, tokens: ts.len() as u32 }
}

/// A token occurs in `ts` exactly when `ts` contains it.
pub proof fn lemma_occurrences_positive(ts: Seq<Seq<char>>, t: Seq<char>)
    ensures
        occurrences(ts, t) > 0 <==> ts.contains(t),
    decreases ts.len(),
{
    if ts.len() > 0 {
        lemma_occurrences_positive(ts.drop_last(), t);
        if ts.drop_last().contains(t) {
            let k = choose|k: int| 0 <= k < ts.drop_last().len() && ts.drop_last()[k] == t;
            assert(ts[k] == t);
        }
        if ts.contains(t) && ts.last() != t {
            let k = choose|k: int| 0 <= k < ts.len() && ts[k] == t;
            assert(ts.drop_last()[k] == t);
        }
        if ts.last() == t {
            assert(ts[ts.len() - 1] == t);
        }
    }
}

/// Extending keeps every earlier term at its index and adds every token.
pub proof fn lemma_extend_vocabulary(v: Seq<Seq<char>>, ts: Seq<Seq<char>>)
    ensures
        extend_vocabulary(v, ts).len() >= v.len(),
        forall|i: int| 0 <= i < v.len() ==> #[trigger] extend_vocabulary(v, ts)[i] == v[i],
        forall|i: int| 0 <= i < ts.len() ==> extend_vocabulary(v, ts).contains(#[trigger] ts[i]),
        v.no_duplicates() ==> extend_vocabulary(v, ts).no_duplicates(),
    decreases ts.len(),
{
    if ts.len() > 0 {
        let prev = ts.drop_last();
        lemma_extend_vocabulary(v, prev);
        let w = extend_vocabulary(v, prev);
        let t = ts.last();
        assert forall|i: int| 0 <= i < ts.len() implies extend_vocabulary(v, ts).contains(
            #[trigger] ts[i],
        ) by {
            if i < prev.len() {
                assert(prev[i] == ts[i]);
                assert(w.contains(prev[i]));
                let k = choose|k: int| 0 <= k < w.len() && w[k] == prev[i];
                assert(extend_vocabulary(v, ts)[k] == ts[i]);
            } else {
                if w.contains(t) {
                } else {
                    assert(w.push(t)[w.len() as int] == t);
                }
            }
        }
    }
}

/// Every vocabulary of a group lists each term once.
pub proof fn lemma_vocabulary_distinct(bodies: Seq<Seq<char>>)
    ensures
        vocabulary_of(bodies).no_duplicates(),
    decreases bodies.len(),
{
    if bodies.len() > 0 {
        lemma_vocabulary_distinct(bodies.drop_last());
        lemma_extend_vocabulary(vocabulary_of(bodies.drop_last()), tokens(bodies.last()));
    }
}

/// The vocabulary of a group holds every token of each of its bodies.
pub proof fn lemma_vocabulary_covers(bodies: Seq<Seq<char>>, j: int, k: int)
    requires
        0 <= j < bodies.len(),
        0 <= k < tokens(bodies[j]).len(),
    ensures
        vocabulary_of(bodies).contains(tokens(bodies[j])[k]),
    decreases bodies.len(),
{
    let prev = bodies.drop_last();
    let ts = tokens(bodies.last());
    lemma_extend_vocabulary(vocabulary_of(prev), ts);
    if j < bodies.len() - 1 {
        assert(prev[j] == bodies[j]);
        lemma_vocabulary_covers(prev, j, k);
        let t = tokens(bodies[j])[k];
        let i = choose|i: int| 0 <= i < vocabulary_of(prev).len() && vocabulary_of(prev)[i] == t;
        assert(vocabulary_of(bodies)[i] == t);
    } else {
        assert(ts[k] == tokens(bodies[j])[k]);
    }
}

/// The counts over a vocabulary add up to at most the number of tokens.
pub proof fn lemma_count_vector_total(ts: Seq<Seq<char>>, v: Seq<Seq<char>>)
    requires
        v.no_duplicates(),
        ts.len() <= u32::MAX,
    ensures
        total(count_vector(ts, v)) <= ts.len(),
    decreases ts.len(),
{
    if ts.len() == 0 {
        assert(count_vector(ts, v) =~= Seq::new(v.len(), |i: int| 0u32));
        lemma_total_zeros(v.len());
    } else {
        let prev = ts.drop_last();
        let t = ts.last();
        lemma_count_vector_total(prev, v);
        let c0 = count_vector(prev, v);
        let c1 = count_vector(ts, v);
        if v.contains(t) {
            let idx = choose|i: int| 0 <= i < v.len() && v[i] == t;
            lemma_occurrences_le(prev, t);
            lemma_total_update(c0, idx, (c0[idx] + 1) as u32);
            assert forall|i: int| 0 <= i < v.len() implies c1[i] == c0.update(
                idx,
                (c0[idx] + 1) as u32,
            )[i] by {
                lemma_occurrences_le(prev, v[i]);
                if i != idx {
                    assert(v[i] != v[idx]);
                }
            }
            assert(c1 =~= c0.update(idx, (c0[idx] + 1) as u32));
        } else {
            assert forall|i: int| 0 <= i < v.len() implies c1[i] == c0[i] by {
                assert(v[i] != t);
            }
            assert(c1 =~= c0);
        }
    }
}

/// The first term of a fresh vocabulary is the first token.
pub proof fn lemma_first_term(ts: Seq<Seq<char>>)
    requires
        ts.len() > 0,
    ensures
        extend_vocabulary(seq![], ts).len() > 0,
        extend_vocabulary(seq![], ts)[0] == ts[0],
    decreases ts.len(),
{
    if ts.len() > 1 {
        let prev = ts.drop_last();
        lemma_first_term(prev);
        lemma_extend_vocabulary(seq![], prev);
        let w = extend_vocabulary(seq![], prev);
        if !w.contains(ts.last()) {
            assert(w.push(ts.last())[0] == w[0]);
        }
    } else {
        assert(ts.drop_last() =~= Seq::<Seq<char>>::empty());
        assert(extend_vocabulary(seq![], ts.drop_last()) == Seq::<Seq<char>>::empty());
        assert(ts.last() == ts[0]);
        assert(!Seq::<Seq<char>>::empty().contains(ts[0]));
        assert(Seq::<Seq<char>>::empty().push(ts[0])[0] == ts[0]);
    }
}

/// First-occurrence order: over bodies `[d0, d1]` index 0 goes to the first
/// token of `d0`, or of `d1` where `d0` has none. The vocabulary is a
/// function of the bodies alone, so every build gives the same one.
pub proof fn lemma_vocabulary_first_index(d0: Seq<char>, d1: Seq<char>)
    requires
        tokens(d0).len() > 0 || tokens(d1).len() > 0,
    ensures
        vocabulary_of(seq![d0, d1]).len() > 0,
        vocabulary_of(seq![d0, d1])[0] == if tokens(d0).len() > 0 {
            tokens(d0)[0]
        } else {
            tokens(d1)[0]
        },
{
    let pair = seq![d0, d1];
    assert(pair.drop_last() =~= seq![d0]);
    assert(seq![d0].drop_last() =~= Seq::<Seq<char>>::empty());
    let first = vocabulary_of(seq![d0]);
    assert(seq![d0].last() == d0);
    assert(vocabulary_of(Seq::<Seq<char>>::empty()) == Seq::<Seq<char>>::empty());
    assert(first == extend_vocabulary(seq![], tokens(d0)));
    assert(pair.last() == d1);
    assert(vocabulary_of(pair) == extend_vocabulary(first, tokens(d1)));
    lemma_extend_vocabulary(first, tokens(d1));
    if tokens(d0).len() > 0 {
        lemma_first_term(tokens(d0));
    } else {
        assert(first =~= Seq::<Seq<char>>::empty());
        lemma_first_term(tokens(d1));
    }
}

/// How many words of `ws` are plain and lower-case to `t`.
pub open spec fn plain_matches(ws: Seq<Seq<char>>, t: Seq<char>) -> nat
    decreases ws.len(),
{
    if ws.len() == 0 {
        0
    } else {
        plain_matches(ws.drop_last(), t) + if is_plain_word(ws.last()) && lower(ws.last()) == t {
            1nat
        } else {
            0nat
        }
    }
}

/// Only stop words are dropped as tokens: a token that is not a stop word
/// occurs after cleaning once for each plain word that lower-cases to it, so
/// words that merely contain a stop word are kept in full.
pub proof fn lemma_non_stop_words_kept(ws: Seq<Seq<char>>, t: Seq<char>)
    requires
        !is_stop_word(t),
    ensures
        occurrences(content_words(ws), t) == plain_matches(ws, t),
    decreases ws.len(),
{
    if ws.len() > 0 {
        lemma_non_stop_words_kept(ws.drop_last(), t);
        let r = content_words(ws.drop_last());
        let w = ws.last();
        if is_plain_word(w) && !is_stop_word(lower(w)) {
            assert(r.push(lower(w)).drop_last() =~= r);
        }
    }
}

} // verus!
