//! Text normalisation: the structural pass over raw extracted text and the
//! lexical pass that reduces a body to lower-case content words.

use vstd::prelude::*;
use crate::document::{copy_links, Page};
use crate::stop_words::{is_stop_word, is_stop_word_chars, stop_words};
use crate::text::{
    chars_of, collapsed, is_trimmed, is_white_space, is_white_space_char, lemma_collapsed,
    lemma_single_spaced_odd, lemma_trimmed, lemma_without_pair, odd_space_count, remove_pair,
    single_spaced, string_of, trimmed, without_pair,
};

verus! {

/// The maximal runs of non-whitespace characters of `s`, in order.
pub open spec fn words(s: Seq<char>) -> Seq<Seq<char>>
    decreases s.len(),
{
    if s.len() == 0 {
        seq![]
    } else {
        let w = words(s.drop_last());
        let c = s.last();
        if is_white_space(c) {
            w
        } else if s.len() >= 2 && !is_white_space(s[s.len() - 2]) {
            w.update(w.len() - 1, w.last().push(c))
        } else {
            w.push(seq![c])
        }
    }
}

pub open spec fn is_ascii_letter(c: char) -> bool {
    ('a' <= c && c <= 'z') || ('A' <= c && c <= 'Z')
}

/// A word survives lexical cleaning only if it is made of ASCII letters alone.
pub open spec fn is_plain_word(w: Seq<char>) -> bool {
    forall|i: int| 0 <= i < w.len() ==> is_ascii_letter(#[trigger] w[i])
}

pub open spec fn lower_char(c: char) -> char {
    if 'A' <= c && c <= 'Z' {
        ((c as u8) + 32) as char
    } else {
        c
    }
}

pub open spec fn lower(w: Seq<char>) -> Seq<char> {
    w.map_values(|c: char| lower_char(c))
}

/// The tokens kept from a sequence of words: plain words, lower-cased, that
/// are not stop words, in their original order.
pub open spec fn content_words(ws: Seq<Seq<char>>) -> Seq<Seq<char>>
    decreases ws.len(),
{
    if ws.len() == 0 {
        seq![]
    } else {
        let r = content_words(ws.drop_last());
        let w = ws.last();
        if is_plain_word(w) && !is_stop_word(lower(w)) {
            r.push(lower(w))
        } else {
            r
        }
    }
}

/// The tokens of a body after lexical cleaning.
pub open spec fn tokens(s: Seq<char>) -> Seq<Seq<char>> {
    content_words(words(s))
}

/// Tokens rejoined with single spaces.
pub open spec fn joined(ts: Seq<Seq<char>>) -> Seq<char>
    decreases ts.len(),
{
    if ts.len() == 0 {
        seq![]
    } else if ts.len() == 1 {
        ts[0]
    } else {
        joined(ts.drop_last()) + seq![' '] + ts.last()
    }
}

pub open spec fn token_views(ts: Seq<Vec<char>>) -> Seq<Seq<char>> {
    ts.map_values(|t: Vec<char>| t@)
}

fn is_plain_word_chars(w: &Vec<char>) -> (r: bool)
    ensures
        r == is_plain_word(w@),
{
    let mut i: usize = 0;
    while i < w.len()
        invariant
            i <= w@.len(),
            forall|k: int| 0 <= k < i ==> is_ascii_letter(w@[k]),
        decreases w.len() - i,
    {
        let c = w[i];
        if !(('a' <= c && c <= 'z') || ('A' <= c && c <= 'Z')) {
            assert(!is_ascii_letter(w@[i as int]));
            return false;
        }
        i = i + 1;
    }
    true
}

fn lower_chars(w: &Vec<char>) -> (r: Vec<char>)
    ensures
        r@ == lower(w@),
{
    let mut r: Vec<char> = Vec::new();
    let mut i: usize = 0;
    while i < w.len()
        invariant
            i <= w@.len(),
            r@ =~= lower(w@.subrange(0, i as int)),
        decreases w.len() - i,
    {
        let c = w[i];
        let l = if 'A' <= c && c <= 'Z' {
            ((c as u8) + 32) as char
        } else {
            c
        };
        r.push(l);
        assert(r@ =~= lower(w@.subrange(0, i + 1)));
        i = i + 1;
    }
    assert(w@.subrange(0, w@.len() as int) =~= w@);
    r
}

/// Appends the token that `w` gives, if it gives one.
fn take_word(w: &Vec<char>, out: &mut Vec<Vec<char>>, Ghost(done): Ghost<Seq<Seq<char>>>)
    requires
        token_views(old(out)@) == content_words(done),
    ensures
        token_views(final(out)@) == content_words(done.push(w@)),
{
    assert(done.push(w@).drop_last() =~= done);
    if is_plain_word_chars(w) {
        let l = lower_chars(w);
        if !is_stop_word_chars(&l) {
            out.push(l);
            assert(token_views(final(out)@) =~= token_views(old(out)@).push(lower(w@)));
        }
    }
}

/// The tokens of `content` after lexical cleaning.
pub fn clean_tokens(content: &str) -> (r: Vec<Vec<char>>)
    ensures
        token_views(r@) == tokens(content@),
{
    let s = chars_of(content);
    let n = s.len();
    let mut out: Vec<Vec<char>> = Vec::new();
    let mut cur: Vec<char> = Vec::new();
    let ghost mut done: Seq<Seq<char>> = seq![];
    let mut i: usize = 0;
    assert(token_views(out@) =~= seq![]);
    while i < n
        invariant
            i <= n == s@.len(),
            s@ == content@,
            token_views(out@) == content_words(done),
            words(s@.subrange(0, i as int)) == if cur@.len() > 0 {
                done.push(cur@)
            } else {
                done
            },
            cur@.len() > 0 <==> (i > 0 && !is_white_space(s@[i - 1])),
        decreases n - i,
    {
        let c = s[i];
        let ghost pre = s@.subrange(0, i as int);
        assert(s@.subrange(0, i + 1).drop_last() =~= pre);
        if is_white_space_char(c) {
            if cur.len() > 0 {
                take_word(&cur, &mut out, Ghost(done));
                proof {
                    done = done.push(cur@);
                }
                cur = Vec::new();
            }
        } else {
            let ghost before = cur@;
            let had = cur.len() > 0;
            cur.push(c);
            if had {
                assert(done.push(before).update(done.len() as int, before.push(c)) =~= done.push(
                    cur@,
                ));
            } else {
                assert(cur@ =~= seq![c]);
            }
        }
        i = i + 1;
    }
    assert(s@.subrange(0, n as int) =~= s@);
    if cur.len() > 0 {
        take_word(&cur, &mut out, Ghost(done));
    }
    out
}

/// The tokens joined with single spaces.
pub fn join_tokens(ts: &Vec<Vec<char>>) -> (r: Vec<char>)
    ensures
        r@ == joined(token_views(ts@)),
{
    let mut r: Vec<char> = Vec::new();
    let mut i: usize = 0;
    while i < ts.len()
        invariant
            i <= ts@.len(),
            r@ == joined(token_views(ts@.subrange(0, i as int))),
        decreases ts.len() - i,
    {
        let ghost prev = token_views(ts@.subrange(0, i as int));
        let ghost next = token_views(ts@.subrange(0, i + 1));
        assert(next.drop_last() =~= prev);
        assert(next.last() == ts@[i as int]@);
        if i > 0 {
            r.push(' ');
        }
        let t = &ts[i];
        let mut j: usize = 0;
        let ghost base = r@;
        while j < t.len()
            invariant
                j <= t@.len(),
                r@ =~= base + t@.subrange(0, j as int),
            decreases t.len() - j,
        {
            r.push(t[j]);
            j = j + 1;
        }
        assert(t@.subrange(0, t@.len() as int) =~= t@);
        if i == 0 {
            assert(r@ =~= next[0]);
        } else {
            assert(r@ =~= joined(prev) + seq![' '] + next.last());
        }
        i = i + 1;
    }
    assert(ts@.subrange(0, ts@.len() as int) =~= ts@);
    r
}

/// A new page with the same title and links whose body is the lexically
/// cleaned token stream, joined with single spaces.
pub fn clean_document(page: &Page) -> (r: Page)
    ensures
        r.title@ == page.title@,
        r.links@ == page.links@,
        r.content@ == joined(tokens(page.content@)),
{
    let ts = clean_tokens(page.content.as_str());
    let body = join_tokens(&ts);
    Page { title: page.title.clone(), links: copy_links(&page.links), content: string_of(&body) }
}

/// Every word of `s` is non-empty and free of whitespace.
pub proof fn lemma_words_shape(s: Seq<char>)
    ensures
        forall|i: int|
            0 <= i < words(s).len() ==> (#[trigger] words(s)[i]).len() > 0 && forall|k: int|
                0 <= k < words(s)[i].len() ==> !is_white_space(#[trigger] words(s)[i][k]),
    decreases s.len(),
{
    if s.len() > 0 {
        lemma_words_shape(s.drop_last());
        let w = words(s.drop_last());
        let c = s.last();
        if !is_white_space(c) && s.len() >= 2 && !is_white_space(s[s.len() - 2]) {
            lemma_words_ends(s.drop_last());
            let u = w.update(w.len() - 1, w.last().push(c));
            assert forall|i: int| 0 <= i < u.len() implies (#[trigger] u[i]).len() > 0 && forall|
                k: int,
            | 0 <= k < u[i].len() ==> !is_white_space(#[trigger] u[i][k]) by {
                if i == w.len() - 1 {
                    assert forall|k: int| 0 <= k < u[i].len() implies !is_white_space(
                        #[trigger] u[i][k],
                    ) by {
                        if k < w.last().len() {
                            assert(u[i][k] == w[i][k]);
                        }
                    }
                }
            }
        }
    }
}

/// A text that ends in a non-whitespace character has at least one word.
pub proof fn lemma_words_ends(s: Seq<char>)
    requires
        s.len() > 0,
        !is_white_space(s.last()),
    ensures
        words(s).len() > 0,
    decreases s.len(),
{
    if s.len() >= 2 && !is_white_space(s[s.len() - 2]) {
        lemma_words_ends(s.drop_last());
    }
}

/// A whitespace-free word after a break adds exactly that word.
proof fn lemma_words_append(x: Seq<char>, t: Seq<char>)
    requires
        x.len() == 0 || is_white_space(x.last()),
        t.len() > 0,
        forall|k: int| 0 <= k < t.len() ==> !is_white_space(#[trigger] t[k]),
    ensures
        words(x + t) == words(x).push(t),
    decreases t.len(),
{
    let s = x + t;
    assert(s.drop_last() =~= x + t.drop_last());
    assert(s.last() == t.last());
    if t.len() == 1 {
        assert(t =~= seq![t.last()]);
        assert(s.drop_last() =~= x);
        if s.len() >= 2 {
            assert(s[s.len() - 2] == x.last());
        }
    } else {
        lemma_words_append(x, t.drop_last());
        assert(s[s.len() - 2] == t[t.len() - 2]);
        let w = words(x).push(t.drop_last());
        assert(t.drop_last().push(t.last()) =~= t);
        assert(w.update(w.len() - 1, w.last().push(t.last())) =~= words(x).push(t));
    }
}

/// Tokens joined with single spaces split back into the same tokens.
pub proof fn lemma_words_joined(ts: Seq<Seq<char>>)
    requires
        forall|i: int|
            0 <= i < ts.len() ==> (#[trigger] ts[i]).len() > 0 && forall|k: int|
                0 <= k < ts[i].len() ==> !is_white_space(#[trigger] ts[i][k]),
    ensures
        words(joined(ts)) == ts,
    decreases ts.len(),
{
    if ts.len() == 1 {
        lemma_words_append(seq![], ts[0]);
        assert(Seq::<char>::empty() + ts[0] =~= ts[0]);
        assert(words(Seq::<char>::empty()).push(ts[0]) =~= ts);
    } else if ts.len() > 1 {
        let prev = ts.drop_last();
        lemma_words_joined(prev);
        let x = joined(prev) + seq![' '];
        assert(x.drop_last() =~= joined(prev));
        assert(words(x) == words(joined(prev)));
        lemma_words_append(x, ts.last());
        assert(prev.push(ts.last()) =~= ts);
    }
}

/// Each kept token is a non-empty run of lower-case ASCII letters that is not
/// a stop word.
pub proof fn lemma_content_words_shape(ws: Seq<Seq<char>>)
    requires
        forall|i: int| 0 <= i < ws.len() ==> (#[trigger] ws[i]).len() > 0,
    ensures
        forall|i: int|
            0 <= i < content_words(ws).len() ==> (#[trigger] content_words(ws)[i]).len() > 0
                && !is_stop_word(content_words(ws)[i]) && forall|k: int|
                0 <= k < content_words(ws)[i].len() ==> is_ascii_letter(
                    #[trigger] content_words(ws)[i][k],
                ),
    decreases ws.len(),
{
    if ws.len() > 0 {
        let prev = ws.drop_last();
        assert forall|i: int| 0 <= i < prev.len() implies (#[trigger] prev[i]).len() > 0 by {
            assert(prev[i] == ws[i]);
        }
        lemma_content_words_shape(prev);
        let w = ws.last();
        assert(ws[ws.len() - 1] == w);
        let r = content_words(prev);
        if is_plain_word(w) && !is_stop_word(lower(w)) {
            let lw = lower(w);
            assert(content_words(ws) == r.push(lw));
            assert forall|k: int| 0 <= k < lw.len() implies is_ascii_letter(#[trigger] lw[k]) by {
                assert(is_ascii_letter(w[k]));
                let c = w[k];
                if 'A' <= c && c <= 'Z' {
                    assert(('a' <= ((c as u8) + 32) as char) && (((c as u8) + 32) as char <= 'z'));
                }
            }
            assert forall|i: int| 0 <= i < r.push(lw).len() implies (#[trigger] r.push(lw)[i]).len()
                > 0 && !is_stop_word(r.push(lw)[i]) && forall|k: int|
                0 <= k < r.push(lw)[i].len() ==> is_ascii_letter(#[trigger] r.push(lw)[i][k]) by {
                if i < r.len() {
                    assert(r.push(lw)[i] == r[i]);
                } else {
                    assert(r.push(lw)[i] == lw);
                }
            }
        } else {
            assert(content_words(ws) == r);
        }
    }
}

/// Lexical cleaning leaves no stop word: the cleaned body, split into words
/// again, gives back exactly its tokens, none of which is a stop word; in
/// particular none is "the", "and" or "a". Words that merely contain them
/// are kept.
pub proof fn lemma_cleaned_body_has_no_stop_words(s: Seq<char>)
    ensures
        words(joined(tokens(s))) == tokens(s),
        forall|i: int|
            0 <= i < tokens(s).len() ==> !is_stop_word(#[trigger] words(joined(tokens(s)))[i]),
        !words(joined(tokens(s))).contains("the"@),
        !words(joined(tokens(s))).contains("and"@),
        !words(joined(tokens(s))).contains("a"@),
{
    lemma_words_shape(s);
    lemma_content_words_shape(words(s));
    let ts = tokens(s);
    assert forall|i: int| 0 <= i < ts.len() implies (#[trigger] ts[i]).len() > 0 && forall|k: int|
        0 <= k < ts[i].len() ==> !is_white_space(#[trigger] ts[i][k]) by {
        assert forall|k: int| 0 <= k < ts[i].len() implies !is_white_space(#[trigger] ts[i][k]) by {
            assert(is_ascii_letter(ts[i][k]));
        }
    }
    lemma_words_joined(ts);
    assert(stop_words()[55] == "the"@);
    assert(stop_words()[56] == "and"@);
    assert(stop_words()[53] == "a"@);
    assert(is_stop_word("the"@));
    assert(is_stop_word("and"@));
    assert(is_stop_word("a"@));
}

/// A run of whitespace.
pub const WHITESPACE_RUN: &'static str = r"\s+";

/// A style rule of the `mw-` class namespace: `.mw-...{...}`.
pub const STYLE_RULE: &'static str = r"\.mw-.*?\{.*?\}";

/// Whitespace at either end of the text.
pub const OUTER_WHITESPACE: &'static str = r"^\s+|\s+$";

/// What `regex::Regex::replace_all` returns for the regular expression
/// `pattern` over `text`, with `rep` substituted literally for each
/// non-overlapping match; `text` unchanged where `pattern` does not compile.
pub uninterp spec fn regex_replaced(pattern: Seq<char>, text: Seq<char>, rep: Seq<char>) -> Seq<
    char,
>;

/// Relies on `regex::Regex::new` and `regex::Regex::replace_all` (with
/// `regex::NoExpand`, so that `rep` is taken literally): the result depends on
/// the three strings alone. The crate's `\s` is the Unicode `White_Space`
/// set, which `is_white_space` lists, so `\s+` replaced by a space collapses
/// each whitespace run, and `^\s+|\s+$` replaced by nothing trims. Replacing
/// matches by nothing never lengthens the text, and a text with no match comes
/// back unchanged.
#[verifier::external_body]
fn replace_matches(pattern: &str, text: &str, rep: &str) -> (r: String)
    ensures
        r@ == regex_replaced(pattern@, text@, rep@),
        pattern@ == WHITESPACE_RUN@ && rep@ == " "@ ==> r@ == collapsed(text@),
        pattern@ == OUTER_WHITESPACE@ && rep@.len() == 0 ==> r@ == trimmed(text@),
        rep@.len() == 0 ==> r@ == text@ || r@.len() < text@.len(),
{
    match regex::Regex::new(pattern) {
        Ok(re) => re.replace_all(text, regex::NoExpand(rep)).into_owned(),
        Err(_) => text.to_string(),
    }
}

/// One round of the structural pass: `mw-` style rules are removed, then
/// empty `()` and `[]` pairs, then each whitespace run becomes one space and
/// the ends are trimmed.
pub open spec fn cleaning_round(s: Seq<char>) -> Seq<char> {
    let unstyled = regex_replaced(STYLE_RULE@, s, ""@);
    trimmed(collapsed(without_pair(without_pair(unstyled, '(', ')'), '[', ']')))
}

/// Rounds repeated, at most `fuel` times, until one changes nothing.
pub open spec fn settle(s: Seq<char>, fuel: nat) -> Seq<char>
    decreases fuel,
{
    if fuel == 0 || cleaning_round(s) == s {
        s
    } else {
        settle(cleaning_round(s), (fuel - 1) as nat)
    }
}

/// The structural pass: cleaning rounds until one changes nothing. A round
/// that changes the text shortens it or turns its other whitespace into
/// spaces, so `len + odd_space_count + 1` rounds are enough.
pub open spec fn structural(s: Seq<char>) -> Seq<char> {
    settle(s, s.len() + odd_space_count(s) + 1)
}

/// No empty `()` or `[]` pair in `s`.
pub open spec fn no_empty_pairs(s: Seq<char>) -> bool {
    forall|i: int|
        0 <= i < s.len() - 1 ==> !(s[i] == '(' && #[trigger] s[i + 1] == ')') && !(s[i] == '['
            && s[i + 1] == ']')
}

fn run_cleaning_round(z: &str) -> (r: String)
    ensures
        r@ == cleaning_round(z@),
        single_spaced(r@),
        is_trimmed(r@),
        r@ == z@ || r@.len() + odd_space_count(r@) < z@.len() + odd_space_count(z@),
        r@ == z@ ==> regex_replaced(STYLE_RULE@, z@, ""@) == z@ && without_pair(z@, '(', ')')
            == z@ && without_pair(z@, '[', ']') == z@,
{
    proof {
        reveal_strlit("");
    }
    let unstyled = replace_matches(STYLE_RULE, z, "");
    let bare = strip_empty_brackets(unstyled.as_str());
    let spaced = replace_matches(WHITESPACE_RUN, bare.as_str(), " ");
    let r = replace_matches(OUTER_WHITESPACE, spaced.as_str(), "");
    proof {
        let u = unstyled@;
        let p1 = without_pair(u, '(', ')');
        let p = without_pair(p1, '[', ']');
        lemma_without_pair(u, '(', ')');
        lemma_without_pair(p1, '[', ']');
        lemma_collapsed(p);
        lemma_trimmed(collapsed(p));
        lemma_single_spaced_odd(r@);
        if r@.len() == z@.len() {
            assert(u == z@);
            assert(p1 == u);
            assert(p == p1);
            assert(r@ == collapsed(p));
            if odd_space_count(z@) == 0 {
                assert(collapsed(p) == p);
            }
        }
    }
    r
}

/// Removes the empty `()` and `[]` pairs that are left where markup was.
pub fn strip_empty_brackets(s: &str) -> (r: String)
    ensures
        r@ == without_pair(without_pair(s@, '(', ')'), '[', ']'),
{
    let chars = chars_of(s);
    let no_parens = remove_pair(&chars, '(', ')');
    string_of(&remove_pair(&no_parens, '[', ']'))
}

/// Cleans residual markup noise from raw extracted text: the result is
/// trimmed, its whitespace is single spaces, it holds no `mw-` style rule and
/// no empty `()` or `[]`, and cleaning it again changes nothing.
pub fn clean_meta_content(input: &str) -> (r: String)
    ensures
        r@ == structural(input@),
        structural(r@) == r@,
        is_trimmed(r@),
        single_spaced(r@),
        regex_replaced(STYLE_RULE@, r@, ""@) == r@,
        no_empty_pairs(r@),
{
    let mut z: String = input.to_owned();
    let ghost mut fuel: nat = (input@.len() + odd_space_count(input@) + 1) as nat;
    let mut next = run_cleaning_round(z.as_str());
    while !(next == z)
        invariant
            next@ == cleaning_round(z@),
            single_spaced(next@),
            is_trimmed(next@),
            next@ == z@ || next@.len() + odd_space_count(next@) < z@.len() + odd_space_count(z@),
            next@ == z@ ==> regex_replaced(STYLE_RULE@, z@, ""@) == z@ && without_pair(
                z@,
                '(',
                ')',
            ) == z@ && without_pair(z@, '[', ']') == z@,
            settle(z@, fuel) == structural(input@),
            fuel > z@.len() + odd_space_count(z@),
        decreases z@.len() + odd_space_count(z@),
    {
        proof {
            fuel = (fuel - 1) as nat;
        }
        z = next;
        next = run_cleaning_round(z.as_str());
    }
    proof {
        lemma_without_pair(z@, '(', ')');
        lemma_without_pair(z@, '[', ']');
        assert forall|i: int| 0 <= i < z@.len() - 1 implies !(z@[i] == '(' && #[trigger] z@[i
            + 1] == ')') && !(z@[i] == '[' && z@[i + 1] == ']') by {
            if z@[i] == '[' && z@[i + 1] == ']' {
                assert(z@[i] == '[' && z@[i + 1] == ']');
            }
        }
    }
    z
}

} // verus!
